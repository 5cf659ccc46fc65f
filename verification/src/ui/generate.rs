//! Making a sequence of tracks out of the space.
//!
//! Four modes, which differ only in how the sequence is chosen:
//!   - **neighbours**: the most similar tracks.
//!   - **radio**: a greedy walk, pushed away from artists already used.
//!   - **path**: A to B, shortest route or evenly paced.
//!   - **drift**: away from a track, towards a phrase.

use crate::cli::{DRIFT_ANCHORS, PATH_NEIGHBOURS};
use crate::db::{Catalog, TrackMeta};
use crate::json::seen;
use crate::paths::{are_rows, Constraints, Navigator, Step};
use crate::qobuz::{cover_of, cover_url, identity_of, RemoteTrack, TrackIdentity};
use crate::space::Score;
use crate::strings::{decimal_signed, joined, push_text, signed_digits, trim, trim_of};
use vstd::prelude::*;

verus! {

#[derive(Clone, Copy, PartialEq, Eq, Structural, Debug)]
pub enum Mode {
    Neighbours,
    Radio,
    Path,
    Drift,
}

impl Mode {
    pub const ALL: [Mode; 4] = [Mode::Neighbours, Mode::Radio, Mode::Path, Mode::Drift];

    pub fn label(self) -> (text: &'static str)
        ensures
            text@ == match self {
                Mode::Neighbours => "neighbours"@,
                Mode::Radio => "radio"@,
                Mode::Path => "path"@,
                Mode::Drift => "drift"@,
            },
    {
        match self {
            Mode::Neighbours => "neighbours",
            Mode::Radio => "radio",
            Mode::Path => "path",
            Mode::Drift => "drift",
        }
    }

    pub fn blurb(self) -> (text: &'static str)
        ensures
            text@ == match self {
                Mode::Neighbours => "The most similar tracks to the selection."@,
                Mode::Radio => "Keep jumping to the nearest track not yet played."@,
                Mode::Path => "Travel from A to B through the space."@,
                Mode::Drift => "Walk away from the selection, towards a phrase."@,
            },
    {
        match self {
            Mode::Neighbours => "The most similar tracks to the selection.",
            Mode::Radio => "Keep jumping to the nearest track not yet played.",
            Mode::Path => "Travel from A to B through the space.",
            Mode::Drift => "Walk away from the selection, towards a phrase.",
        }
    }
}

/// What produced the result currently on screen. A result outlives both the
/// selection and the mode that made it, and unlabelled tracks under a tab that
/// no longer matches them are a puzzle, not a list.
#[derive(Debug)]
pub enum Recipe {
    Neighbours { seed: i64 },
    Radio { seed: i64 },
    Path { a: i64, b: i64, even: bool },
    Drift { seed: i64, phrase: String },
}

impl Clone for Recipe {
    fn clone(&self) -> (copy: Self)
        ensures
            copy == *self,
    {
        match self {
            Recipe::Neighbours { seed } => Recipe::Neighbours { seed: *seed },
            Recipe::Radio { seed } => Recipe::Radio { seed: *seed },
            Recipe::Path { a, b, even } => Recipe::Path { a: *a, b: *b, even: *even },
            Recipe::Drift { seed, phrase } => Recipe::Drift { seed: *seed, phrase: phrase.clone() },
        }
    }
}

/// Which end of a path a track is being named as.
#[derive(Clone, Copy, PartialEq, Eq, Structural, Debug)]
pub enum PathEnd {
    A,
    B,
}

/// A walk to take: what it is, how many tracks to produce, and, for radio, how
/// much an artist already used is held against it.
#[derive(Debug)]
pub struct Walk {
    pub recipe: Recipe,
    pub count: usize,
    pub artist_penalty: u32,
}

/// What a walk over this many rows asks its closures for can be answered: every
/// row's similarity to a row, with and without regard to the artists used so
/// far, every row's similarity to a point of the way, every row's similarity
/// and distance to a row, and how well a row matches a text.
pub open spec fn answers<
    N: Fn(usize) -> Vec<Score>,
    R: Fn(usize, Vec<usize>) -> Vec<Score>,
    A: Fn(usize, Vec<usize>, usize) -> Vec<Score>,
    E: Fn(usize) -> (Vec<Score>, Vec<i32>),
    G: Fn(usize) -> Score,
>(catalog: Catalog, count: usize, near: N, again: R, at: A, edges: E, score: G) -> bool {
    let n = catalog.tracks@.len();
    &&& forall|row: usize| row < n ==> #[trigger] near.requires((row,))
    &&& forall|row: usize, out: Vec<Score>| #[trigger]
        near.ensures((row,), out) ==> out@.len() == n
    &&& forall|row: usize, used: Vec<usize>|
        row < n && used@.len() == n ==> #[trigger] again.requires((row, used))
    &&& forall|row: usize, used: Vec<usize>, out: Vec<Score>| #[trigger]
        again.ensures((row, used), out) ==> out@.len() == n
    &&& forall|from: usize, to: Vec<usize>, step: usize|
        from < n && are_rows(catalog, to@) && to@.len() > 0 && 1 <= step < count
            ==> #[trigger] at.requires((from, to, step))
    &&& forall|from: usize, to: Vec<usize>, step: usize, out: Vec<Score>| #[trigger]
        at.ensures((from, to, step), out) ==> out@.len() == n
    &&& forall|row: usize| row < n ==> #[trigger] edges.requires((row,))
    &&& forall|row: usize, out: (Vec<Score>, Vec<i32>)| #[trigger]
        edges.ensures((row,), out) ==> out.0@.len() == n && out.1@.len() == n
    &&& forall|row: usize| row < n ==> #[trigger] score.requires((row,))
}

impl Walk {
    /// Walks. `clap` is what the phrase of a drift sounds like; no other walk
    /// looks at it.
    pub fn produce<
        N: Fn(usize) -> Vec<Score>,
        R: Fn(usize, Vec<usize>) -> Vec<Score>,
        A: Fn(usize, Vec<usize>, usize) -> Vec<Score>,
        E: Fn(usize) -> (Vec<Score>, Vec<i32>),
        G: Fn(usize) -> Score,
    >(
        &self,
        nav: &mut Navigator,
        clap: &[u32],
        near: N,
        again: R,
        at: A,
        edges: E,
        score: G,
    ) -> (steps: Vec<Step>)
        requires
            old(nav).wf(),
            answers(old(nav).catalog, self.count, near, again, at, edges, score),
        ensures
            final(nav).wf(),
            !(self.recipe matches Recipe::Path { even: false, .. }) ==> *final(nav) == *old(nav),
            exists|c: Constraints| #[trigger]
                c.is_usual() && match self.recipe {
                    Recipe::Neighbours { seed } => old(nav).shows_near(
                        seed,
                        self.count,
                        false,
                        near,
                        steps@,
                    ),
                    Recipe::Radio { seed } => old(nav).shows_radio(
                        seed,
                        self.count,
                        c,
                        again,
                        steps@,
                    ),
                    Recipe::Path { a, b, even } => if even {
                        old(nav).shows_even_path(a, b, self.count, c, at, steps@)
                    } else {
                        old(nav).shows_route(*final(nav), a, b, PATH_NEIGHBOURS, edges, steps@)
                    },
                    Recipe::Drift { seed, .. } => old(nav).shows_drift(
                        seed,
                        clap@,
                        self.count,
                        DRIFT_ANCHORS,
                        c,
                        score,
                        at,
                        steps@,
                    ),
                },
    {
        let usual = Constraints::default();
        assert(usual.is_usual());
        match &self.recipe {
            Recipe::Neighbours { seed } => nav.neighbours(*seed, self.count, false, near),
            Recipe::Radio { seed } => nav.radio_nearest(*seed, self.count, &usual, again),
            Recipe::Path { a, b, even } => if *even {
                nav.interpolate(*a, *b, self.count, &usual, at)
            } else {
                nav.graph_path(*a, *b, PATH_NEIGHBOURS, edges)
            },
            Recipe::Drift { seed, .. } => nav.drift_to_text(
                *seed,
                clap,
                self.count,
                DRIFT_ANCHORS,
                &usual,
                score,
                at,
            ),
        }
    }
}

pub struct Generator {
    pub mode: Mode,
    pub result: Vec<Step>,
    /// What produced `result`, for its heading.
    pub produced_by: Option<Recipe>,
    /// A walk is running.
    pub busy: bool,
    /// The weights moved since `result` was produced, so the distances behind
    /// it no longer hold. Kept separate from clearing: the rows stay on screen
    /// and say they are out of date, rather than vanishing.
    pub stale: bool,
    /// How many tracks to produce, for the modes that take a count.
    pub count: usize,
    /// Similarity subtracted per prior use of an artist, in radio mode, as a
    /// 32-bit pattern.
    pub artist_penalty: u32,
    pub phrase: String,
    pub from: Option<i64>,
    pub to: Option<i64>,
    /// Path shape: evenly paced rather than the shortest route.
    pub even: bool,
    pub status: Option<String>,
    /// Whether the server can turn a phrase into an embedding. Half of what
    /// drift needs; the engine answers the other half.
    pub tower: bool,
}

/// A tenth, as a 32-bit pattern.
pub const DEFAULT_PENALTY: u32 = 0x3dcc_cccd;

pub const DEFAULT_COUNT: usize = 20;

/// What a run of this mode would make, given its inputs; nothing where one is
/// missing.
pub open spec fn recipe_for(
    mode: Mode,
    selected: Option<i64>,
    from: Option<i64>,
    to: Option<i64>,
    even: bool,
    phrase: String,
) -> Option<Recipe> {
    match mode {
        Mode::Neighbours => match selected {
            Some(seed) => Some(Recipe::Neighbours { seed }),
            None => None,
        },
        Mode::Radio => match selected {
            Some(seed) => Some(Recipe::Radio { seed }),
            None => None,
        },
        Mode::Path => match (from, to) {
            (Some(a), Some(b)) => Some(Recipe::Path { a, b, even }),
            _ => None,
        },
        Mode::Drift => match selected {
            Some(seed) => Some(Recipe::Drift { seed, phrase }),
            None => None,
        },
    }
}

impl Generator {
    pub open spec fn recipe(self, selected: Option<i64>) -> Option<Recipe> {
        recipe_for(self.mode, selected, self.from, self.to, self.even, self.phrase)
    }

    /// The generator once a run has been asked for: working, where there was
    /// enough to work from.
    pub open spec fn asked(self, selected: Option<i64>) -> Generator {
        Generator { status: None, busy: self.recipe(selected) is Some, ..self }
    }

    pub open spec fn walk(self, selected: Option<i64>) -> Option<Walk> {
        match self.recipe(selected) {
            Some(recipe) => Some(
                Walk { recipe, count: self.count, artist_penalty: self.artist_penalty },
            ),
            None => None,
        }
    }

    pub fn new() -> (generator: Self)
        ensures
            generator.mode == Mode::Neighbours,
            generator.result@.len() == 0,
            generator.produced_by is None,
            !generator.busy && !generator.stale && !generator.even && !generator.tower,
            generator.count == DEFAULT_COUNT,
            generator.artist_penalty == DEFAULT_PENALTY,
            generator.phrase@.len() == 0,
            generator.from is None && generator.to is None,
            generator.status is None,
    {
        Generator {
            mode: Mode::Neighbours,
            result: Vec::new(),
            produced_by: None,
            busy: false,
            stale: false,
            count: DEFAULT_COUNT,
            artist_penalty: DEFAULT_PENALTY,
            phrase: String::new(),
            from: None,
            to: None,
            even: false,
            status: None,
            tower: false,
        }
    }

    /// Whether drift is offerable at all.
    pub fn can_steer(&self, has_audio_embeddings: bool) -> (yes: bool)
        ensures
            yes == (self.tower && has_audio_embeddings),
    {
        self.tower && has_audio_embeddings
    }

    pub open spec fn is_ready(self, selected: Option<i64>) -> bool {
        match self.mode {
            Mode::Neighbours => selected is Some,
            Mode::Radio => selected is Some,
            Mode::Path => self.from is Some && self.to is Some,
            Mode::Drift => selected is Some && trim_of(self.phrase@).len() > 0,
        }
    }

    /// Whether the current mode has what it needs.
    pub fn ready(&self, selected: Option<i64>) -> (yes: bool)
        ensures
            yes == self.is_ready(selected),
    {
        match self.mode {
            Mode::Neighbours => selected.is_some(),
            Mode::Radio => selected.is_some(),
            Mode::Path => self.from.is_some() && self.to.is_some(),
            Mode::Drift => selected.is_some() && !trim(self.phrase.as_str()).as_str().is_empty(),
        }
    }

    /// Asks for a sequence. The label comes with the walk, so it can never
    /// describe a different run than the rows below it.
    pub fn run(&mut self, selected: Option<i64>) -> (walk: Option<Walk>)
        ensures
            walk == old(self).walk(selected),
            *final(self) == old(self).asked(selected),
    {
        let recipe = match self.mode {
            Mode::Neighbours => match selected {
                Some(seed) => Some(Recipe::Neighbours { seed }),
                None => None,
            },
            Mode::Radio => match selected {
                Some(seed) => Some(Recipe::Radio { seed }),
                None => None,
            },
            Mode::Path => match (self.from, self.to) {
                (Some(a), Some(b)) => Some(Recipe::Path { a, b, even: self.even }),
                _ => None,
            },
            Mode::Drift => match selected {
                Some(seed) => Some(Recipe::Drift { seed, phrase: self.phrase.clone() }),
                None => None,
            },
        };
        self.status = None;
        self.busy = recipe.is_some();
        match recipe {
            Some(recipe) => Some(
                Walk { recipe, count: self.count, artist_penalty: self.artist_penalty },
            ),
            None => None,
        }
    }

    /// The walk came back with these tracks.
    pub fn finish(&mut self, walk: Walk, produced: Vec<Step>)
        ensures
            final(self).result@ == without_repeats(produced@),
            final(self).produced_by == Some(walk.recipe),
            seen(final(self).status) == (if produced@.len() == 0 {
                Some("nothing found, try a different start"@)
            } else {
                seen(old(self).status)
            }),
            *final(self) == (Generator {
                result: final(self).result,
                produced_by: final(self).produced_by,
                status: final(self).status,
                stale: false,
                busy: false,
                ..*old(self)
            }),
    {
        let kept = dedup_by_recording(produced);
        proof {
            something_is_always_kept(produced@);
        }
        if kept.len() == 0 {
            self.status = Some("nothing found, try a different start".to_owned());
        }
        self.result = kept;
        self.produced_by = Some(walk.recipe);
        self.stale = false;
        self.busy = false;
    }

    /// The walk could not be taken. What was there stays.
    pub fn fail(&mut self, message: String)
        ensures
            *final(self) == (Generator { status: Some(message), busy: false, ..*old(self) }),
    {
        self.status = Some(message);
        self.busy = false;
    }

    /// Run a mode directly, rather than whichever one is showing. Switches to
    /// match, so the inputs describe the rows that appear.
    pub fn request(&mut self, mode: Mode, seed: i64) -> (walk: Option<Walk>)
        ensures
            ({
                let aimed = Generator { mode, ..*old(self) };
                walk == aimed.walk(Some(seed)) && *final(self) == aimed.asked(Some(seed))
            }),
    {
        self.mode = mode;
        self.run(Some(seed))
    }

    pub open spec fn with_end(self, end: PathEnd, id: i64) -> Generator {
        match end {
            PathEnd::A => Generator { mode: Mode::Path, from: Some(id), ..self },
            PathEnd::B => Generator { mode: Mode::Path, to: Some(id), ..self },
        }
    }

    /// Set one end of a path. Runs once both ends are known: two deliberate
    /// acts, so nothing is produced by accident, but naming the second end
    /// does not then need a third click to be worth anything.
    pub fn set_path_end(&mut self, end: PathEnd, id: i64) -> (walk: Option<Walk>)
        ensures
            ({
                let aimed = old(self).with_end(end, id);
                if aimed.from is Some && aimed.to is Some {
                    walk == aimed.walk(None) && walk is Some && *final(self) == aimed.asked(None)
                } else {
                    walk is None && *final(self) == aimed
                }
            }),
    {
        self.mode = Mode::Path;
        match end {
            PathEnd::A => {
                self.from = Some(id);
            },
            PathEnd::B => {
                self.to = Some(id);
            },
        }
        if self.from.is_some() && self.to.is_some() {
            self.run(None)
        } else {
            None
        }
    }

    /// Show drift's inputs without running it. What it still lacks is the
    /// phrase, and guessing one would be inventing the user's intent.
    pub fn aim_drift(&mut self)
        ensures
            *final(self) == (Generator { mode: Mode::Drift, ..*old(self) }),
    {
        self.mode = Mode::Drift;
    }

    /// The inputs a recipe was made from, put back.
    pub open spec fn restored(self, recipe: Recipe) -> Generator {
        match recipe {
            Recipe::Neighbours { .. } => Generator { mode: Mode::Neighbours, ..self },
            Recipe::Radio { .. } => Generator { mode: Mode::Radio, ..self },
            Recipe::Path { a, b, even } => Generator {
                mode: Mode::Path,
                from: Some(a),
                to: Some(b),
                even,
                ..self
            },
            Recipe::Drift { phrase, .. } => Generator { mode: Mode::Drift, phrase, ..self },
        }
    }

    /// Run a recipe again, restoring the inputs that produced it: re-running
    /// whatever is showing now would quietly answer a different question. What
    /// is asked for is always exactly the recipe.
    pub fn rerun(&mut self, recipe: &Recipe) -> (walk: Option<Walk>)
        ensures
            walk == Some(
                Walk {
                    recipe: *recipe,
                    count: old(self).count,
                    artist_penalty: old(self).artist_penalty,
                },
            ),
            *final(self) == (Generator {
                status: None,
                busy: true,
                ..old(self).restored(*recipe)
            }),
    {
        match recipe {
            Recipe::Neighbours { seed } => {
                self.mode = Mode::Neighbours;
                self.run(Some(*seed))
            },
            Recipe::Radio { seed } => {
                self.mode = Mode::Radio;
                self.run(Some(*seed))
            },
            Recipe::Path { a, b, even } => {
                self.mode = Mode::Path;
                self.from = Some(*a);
                self.to = Some(*b);
                self.even = *even;
                self.run(None)
            },
            Recipe::Drift { seed, phrase } => {
                self.mode = Mode::Drift;
                self.phrase = phrase.clone();
                self.run(Some(*seed))
            },
        }
    }

    /// The weights moved, so the distances that produced this result no longer
    /// hold. Say so and keep the rows.
    pub fn invalidate(&mut self)
        ensures
            *final(self) == (Generator {
                stale: old(self).stale || old(self).result@.len() > 0,
                ..*old(self)
            }),
    {
        if self.result.len() > 0 {
            self.stale = true;
        }
    }

    /// Throw the result away. Only for when the user asks, or when the ids in
    /// it have genuinely stopped existing.
    pub fn clear(&mut self)
        ensures
            final(self).result@.len() == 0,
            *final(self) == (Generator {
                result: final(self).result,
                produced_by: None,
                stale: false,
                status: None,
                ..*old(self)
            }),
    {
        self.result = Vec::new();
        self.produced_by = None;
        self.stale = false;
        self.status = None;
    }

    /// The route to trace on the map: the result's track ids, while the map is
    /// being used to look at it.
    pub fn route(&self, showing: bool) -> (ids: Vec<i64>)
        ensures
            ids@ == (if showing {
                ids_of(self.result@)
            } else {
                Seq::empty()
            }),
    {
        let mut ids: Vec<i64> = Vec::new();
        if showing {
            while ids.len() < self.result.len()
                invariant
                    ids@.len() <= self.result@.len(),
                    ids@ == ids_of(self.result@).take(ids@.len() as int),
                decreases self.result@.len() - ids@.len(),
            {
                ids.push(self.result[ids.len()].track.track_id);
            }
        }
        ids
    }

    /// The result as something to play.
    pub fn playable(&self) -> (queue: Vec<RemoteTrack>)
        ensures
            queue@.len() == self.result@.len(),
            forall|i: int|
                0 <= i < queue@.len() ==> presents(#[trigger] queue@[i], self.result@[i].track),
    {
        let mut queue: Vec<RemoteTrack> = Vec::new();
        while queue.len() < self.result.len()
            invariant
                queue@.len() <= self.result@.len(),
                forall|i: int|
                    0 <= i < queue@.len() ==> presents(#[trigger] queue@[i], self.result@[i].track),
            decreases self.result@.len() - queue@.len(),
        {
            let at: usize = queue.len();
            queue.push(as_remote(&self.result[at].track));
        }
        queue
    }
}

/// The track ids of steps.
pub open spec fn ids_of(steps: Seq<Step>) -> Seq<i64> {
    Seq::new(steps.len(), |i: int| steps[i].track.track_id)
}

// --------------------------------------------------------------- duplicates

pub open spec fn step_key(step: Step) -> (Option<Seq<char>>, i64) {
    identity_of(step.track.track_id, seen(step.track.isrc))
}

pub open spec fn has_step(steps: Seq<Step>, key: (Option<Seq<char>>, i64)) -> bool {
    exists|i: int| 0 <= i < steps.len() && step_key(#[trigger] steps[i]) == key
}

/// The first step of each recording.
pub open spec fn without_repeats(steps: Seq<Step>) -> Seq<Step>
    decreases steps.len(),
{
    if steps.len() == 0 {
        Seq::empty()
    } else {
        let sooner = without_repeats(steps.drop_last());
        if has_step(sooner, step_key(steps.last())) {
            sooner
        } else {
            sooner.push(steps.last())
        }
    }
}

/// No recording is left twice, and none is lost.
pub proof fn each_recording_is_kept_once(steps: Seq<Step>)
    ensures
        forall|i: int, j: int|
            0 <= i < j < without_repeats(steps).len() ==> step_key(
                #[trigger] without_repeats(steps)[i],
            ) != step_key(#[trigger] without_repeats(steps)[j]),
        forall|i: int|
            0 <= i < steps.len() ==> has_step(
                without_repeats(steps),
                step_key(#[trigger] steps[i]),
            ),
    decreases steps.len(),
{
    if steps.len() > 0 {
        let fewer = steps.drop_last();
        let sooner = without_repeats(fewer);
        let all = without_repeats(steps);
        each_recording_is_kept_once(fewer);
        assert forall|i: int, j: int| 0 <= i < j < all.len() implies step_key(#[trigger] all[i])
            != step_key(#[trigger] all[j]) by {
            assert(all[i] == sooner[i]);
            if j < sooner.len() {
                assert(all[j] == sooner[j]);
            }
        }
        assert forall|i: int| 0 <= i < steps.len() implies has_step(
            all,
            step_key(#[trigger] steps[i]),
        ) by {
            let key = step_key(steps[i]);
            if i < fewer.len() {
                assert(fewer[i] == steps[i]);
            }
            if has_step(sooner, key) {
                let k = choose|k: int| 0 <= k < sooner.len() && step_key(#[trigger] sooner[k]) == key;
                assert(all[k] == sooner[k]);
            } else {
                assert(all[sooner.len() as int] == steps[i]);
            }
        }
    }
}

/// Dropping repeats never drops everything.
pub proof fn something_is_always_kept(steps: Seq<Step>)
    ensures
        without_repeats(steps).len() == 0 <==> steps.len() == 0,
        without_repeats(steps).len() <= steps.len(),
    decreases steps.len(),
{
    if steps.len() > 0 {
        something_is_always_kept(steps.drop_last());
    }
}

impl Clone for Step {
    fn clone(&self) -> (copy: Self)
        ensures
            copy == *self,
    {
        Step { track: self.track.clone(), similarity: self.similarity }
    }
}

/// Keep the first occurrence of each recording, dropping the rest.
///
/// A single, an album cut and a deluxe reissue of the same song are different
/// tracks, close enough in the space to plausibly all land in one result,
/// which reads as the same track several times over.
pub fn dedup_by_recording(steps: Vec<Step>) -> (kept: Vec<Step>)
    ensures
        kept@ == without_repeats(steps@),
{
    let mut keys: Vec<TrackIdentity> = Vec::new();
    let mut kept: Vec<Step> = Vec::new();
    let mut i: usize = 0;
    assert(steps@.take(0) =~= Seq::empty());
    while i < steps.len()
        invariant
            i <= steps@.len(),
            kept@ == without_repeats(steps@.take(i as int)),
            keys@.len() == kept@.len(),
            forall|h: int| 0 <= h < kept@.len() ==> (#[trigger] keys@[h])@ == step_key(kept@[h]),
        decreases steps@.len() - i,
    {
        assert(steps@.take(i + 1).drop_last() =~= steps@.take(i as int));
        assert(steps@.take(i + 1).last() == steps@[i as int]);
        let key = TrackIdentity::of(steps[i].track.track_id, &steps[i].track.isrc);
        let mut there: bool = false;
        let mut h: usize = 0;
        while h < keys.len() && !there
            invariant
                h <= keys@.len(),
                keys@.len() == kept@.len(),
                forall|h: int| 0 <= h < kept@.len() ==> (#[trigger] keys@[h])@ == step_key(kept@[h]),
                there ==> has_step(kept@, key@),
                !there ==> forall|g: int| 0 <= g < h ==> step_key(#[trigger] kept@[g]) != key@,
            decreases
                    keys@.len() - h,
                    (if there {
                        0int
                    } else {
                        1
                    }),
        {
            if keys[h].same_as(&key) {
                assert(step_key(kept@[h as int]) == key@);
                there = true;
            } else {
                assert(keys@[h as int]@ == step_key(kept@[h as int]));
                h = h + 1;
            }
        }
        if !there {
            kept.push(steps[i].clone());
            keys.push(key);
        }
        i = i + 1;
    }
    assert(steps@.take(steps@.len() as int) =~= steps@);
    kept
}

// --------------------------------------------------------------- presenting

/// `track` presents a track of the space to the player.
pub open spec fn presents(track: RemoteTrack, meta: TrackMeta) -> bool {
    &&& track.id == meta.track_id
    &&& track.title == meta.title
    &&& track.artist == meta.artist
    &&& track.artist_id == (if meta.artist_id >= 0 {
        Some(meta.artist_id)
    } else {
        None
    })
    &&& track.album == meta.album
    &&& track.album_id == (if meta.album_id@.len() > 0 {
        Some(meta.album_id)
    } else {
        None
    })
    &&& track.duration is None
    &&& track.streamable
    &&& !track.hires
    // The space stores no art, so the cover is derived from the album id.
    &&& seen(track.image) == cover_of(meta.album_id@)
    &&& track.isrc == meta.isrc
    &&& track.released is None
    &&& track.performers is None
}

/// Present a space track to the player, which speaks in catalogue terms.
pub fn as_remote(meta: &TrackMeta) -> (track: RemoteTrack)
    ensures
        presents(track, *meta),
{
    RemoteTrack {
        id: meta.track_id,
        title: meta.title.clone(),
        artist: meta.artist.clone(),
        artist_id: if meta.artist_id >= 0 {
            Some(meta.artist_id)
        } else {
            None
        },
        album: meta.album.clone(),
        album_id: if meta.album_id.as_str().is_empty() {
            None
        } else {
            Some(meta.album_id.clone())
        },
        duration: None,
        streamable: true,
        hires: false,
        image: cover_url(meta.album_id.as_str()),
        isrc: crate::db::clone_text(&meta.isrc),
        released: None,
        performers: None,
    }
}

/// The first track of that id, where the catalog has one.
pub open spec fn first_with_id(tracks: Seq<TrackMeta>, id: i64) -> Option<TrackMeta>
    decreases tracks.len(),
{
    if tracks.len() == 0 {
        None
    } else if tracks[0].track_id == id {
        Some(tracks[0])
    } else {
        first_with_id(tracks.drop_first(), id)
    }
}

pub fn find_track(catalog: &Catalog, id: i64) -> (found: Option<&TrackMeta>)
    ensures
        match found {
            Some(track) => first_with_id(catalog.tracks@, id) == Some(*track),
            None => first_with_id(catalog.tracks@, id) is None,
        },
{
    let mut i: usize = 0;
    assert(catalog.tracks@.skip(0) =~= catalog.tracks@);
    while i < catalog.tracks.len()
        invariant
            i <= catalog.tracks@.len(),
            first_with_id(catalog.tracks@.skip(i as int), id) == first_with_id(catalog.tracks@, id),
        decreases catalog.tracks@.len() - i,
    {
        assert(catalog.tracks@.skip(i as int)[0] == catalog.tracks@[i as int]);
        assert(catalog.tracks@.skip(i as int).drop_first() =~= catalog.tracks@.skip(i + 1));
        if catalog.tracks[i].track_id == id {
            return Some(&catalog.tracks[i]);
        }
        i = i + 1;
    }
    None
}

/// A track by artist and title.
pub open spec fn track_line(track: TrackMeta) -> Seq<char> {
    track.artist@ + " - "@ + track.title@
}

/// A track by name, by id where the space does not hold it, and a dash where
/// there is none.
pub open spec fn track_label(catalog: Catalog, id: Option<i64>) -> Seq<char> {
    match id {
        None => "-"@,
        Some(id) => match first_with_id(catalog.tracks@, id) {
            Some(track) => track_line(track),
            None => signed_digits(id as int),
        },
    }
}

pub fn label_line(track: &TrackMeta) -> (line: String)
    ensures
        line@ == track_line(*track),
{
    let mut line = joined(track.artist.as_str(), " - ");
    push_text(&mut line, track.title.as_str());
    line
}

pub fn label_for(catalog: &Catalog, id: Option<i64>) -> (label: String)
    ensures
        label@ == track_label(*catalog, id),
{
    match id {
        None => "-".to_owned(),
        Some(id) => match find_track(catalog, id) {
            Some(track) => label_line(track),
            None => decimal_signed(id),
        },
    }
}

pub open spec fn heading(catalog: Catalog, recipe: Recipe) -> Seq<char> {
    match recipe {
        Recipe::Neighbours { seed } => "Neighbours of "@ + track_label(catalog, Some(seed)),
        Recipe::Radio { seed } => "Radio from "@ + track_label(catalog, Some(seed)),
        Recipe::Path { a, b, even } => "Path "@ + track_label(catalog, Some(a)) + " → "@
            + track_label(catalog, Some(b)) + (if even {
            ", evenly paced"@
        } else {
            Seq::empty()
        }),
        Recipe::Drift { seed, phrase } => "Drift from "@ + track_label(catalog, Some(seed))
            + " towards “"@ + phrase@ + "”"@,
    }
}

/// The result's heading. Says what made these rows, because they outlive the
/// selection and the tab that produced them.
pub fn describe(catalog: &Catalog, recipe: &Recipe) -> (text: String)
    ensures
        text@ == heading(*catalog, *recipe),
{
    match recipe {
        Recipe::Neighbours { seed } => joined(
            "Neighbours of ",
            label_for(catalog, Some(*seed)).as_str(),
        ),
        Recipe::Radio { seed } => joined("Radio from ", label_for(catalog, Some(*seed)).as_str()),
        Recipe::Path { a, b, even } => {
            let mut text = joined("Path ", label_for(catalog, Some(*a)).as_str());
            push_text(&mut text, " → ");
            push_text(&mut text, label_for(catalog, Some(*b)).as_str());
            if *even {
                push_text(&mut text, ", evenly paced");
            } else {
                assert(text@ + Seq::<char>::empty() =~= text@);
            }
            text
        },
        Recipe::Drift { seed, phrase } => {
            let mut text = joined("Drift from ", label_for(catalog, Some(*seed)).as_str());
            push_text(&mut text, " towards “");
            push_text(&mut text, phrase.as_str());
            push_text(&mut text, "”");
            text
        },
    }
}

} // verus!
