use tokenizers::Tokenizer;
use two_khz::text::{
    model_at, read_encoded, refusal, tokenise, tokens_of, ONNX_NAME, TOKENIZER_NAME,
};
use two_khz::tokenizer::{
    build_of, objection, Build, NO_END, NO_FRAME, NO_LENGTH, NO_PREFIX, NO_ROOM, PRECOMPILED,
    REPLACES, SPLITS, STRIPS, VANISHES,
};

fn words(vocabulary: &str) -> Tokenizer {
    built(vocabulary, "null", "null", "null")
}

fn built(vocabulary: &str, truncation: &str, padding: &str, frame: &str) -> Tokenizer {
    let file = format!(
        "{{\"version\":\"1.0\",\"truncation\":{truncation},\"padding\":{padding},\"added_tokens\":[],\
         \"normalizer\":null,\"pre_tokenizer\":{{\"type\":\"Whitespace\"}},\
         \"post_processor\":{frame},\"decoder\":null,\
         \"model\":{{\"type\":\"WordLevel\",\"vocab\":{vocabulary},\"unk_token\":\"[UNK]\"}}}}"
    );
    Tokenizer::from_bytes(file.as_bytes()).unwrap()
}

fn made_of(normalizer: &str, pre_tokenizer: &str, added: &str) -> Tokenizer {
    let file = format!(
        "{{\"version\":\"1.0\",\"truncation\":null,\"padding\":null,\"added_tokens\":[{added}],\
         \"normalizer\":{normalizer},\"pre_tokenizer\":{pre_tokenizer},\
         \"post_processor\":null,\"decoder\":null,\
         \"model\":{{\"type\":\"WordLevel\",\"vocab\":{ONE},\"unk_token\":\"[UNK]\"}}}}"
    );
    Tokenizer::from_bytes(file.as_bytes()).unwrap()
}

#[test]
fn a_phrase_becomes_one_row_of_ids() {
    let tokenizer = words("{\"darker\":7,\"and\":8,\"slower\":9,\"[UNK]\":2}");
    let tokens = tokenise(&tokenizer, "darker and slower and brighter").unwrap();
    assert_eq!(tokens.shape, [1, 5]);
    assert_eq!(tokens.ids, vec![7, 8, 9, 8, 2]);
    assert_eq!(tokens.mask, vec![1, 1, 1, 1, 1]);
}

#[test]
fn a_phrase_that_cannot_be_read_is_named() {
    let tokenizer = words("{\"darker\":7}");
    let message = match tokenise(&tokenizer, "\"louder\"") {
        Ok(_) => panic!("no such word is known"),
        Err(message) => message,
    };
    assert!(message.starts_with("tokenising \"\\\"louder\\\"\": "), "{message}");
    assert!(message.len() > "tokenising \"\\\"louder\\\"\": ".len());
}

#[test]
fn ids_and_mask_are_only_widened() {
    let tokens = tokens_of(&[0, 4_294_967_295, 5], &[1, 0, 1]);
    assert_eq!(tokens.shape, [1, 3]);
    assert_eq!(tokens.ids, vec![0, 4_294_967_295, 5]);
    assert_eq!(tokens.mask, vec![1, 0, 1]);
    let none = tokens_of(&[], &[]);
    assert_eq!(none.shape, [1, 0]);
    assert!(none.ids.is_empty() && none.mask.is_empty());
}

#[test]
fn a_refusal_quotes_the_phrase() {
    assert_eq!(refusal("a\tb", "no"), "tokenising \"a\\tb\": no");
}

#[test]
fn the_tower_is_had_only_with_both_files() {
    let both = model_at("/models", |path: &str| path.starts_with("/models/"));
    assert_eq!(
        both,
        Some(("/models/clap_text.onnx".to_string(), "/models/clap_tokenizer.json".to_string()))
    );
    assert_eq!(model_at("/models", |path: &str| path.ends_with(ONNX_NAME)), None);
    assert_eq!(model_at("/models", |path: &str| path.ends_with(TOKENIZER_NAME)), None);
}

const ONE: &str = "{\"a\":1,\"[UNK]\":0}";

const MARKS: &str = "{\"<s>\":{\"id\":\"<s>\",\"ids\":[8],\"tokens\":[\"<s>\"]}}";

fn cut(length: usize, stride: usize) -> String {
    format!(
        "{{\"max_length\":{length},\"strategy\":\"LongestFirst\",\"stride\":{stride},\
         \"direction\":\"Right\"}}"
    )
}

fn place(text: &str) -> String {
    format!("{{\"Sequence\":{{\"id\":\"{text}\",\"type_id\":0}}}}")
}

fn mark(name: &str) -> String {
    format!("{{\"SpecialToken\":{{\"id\":\"{name}\",\"type_id\":0}}}}")
}

fn template(single: &[String], pair: &[String]) -> String {
    format!(
        "{{\"type\":\"TemplateProcessing\",\"single\":[{}],\"pair\":[{}],\"special_tokens\":{MARKS}}}",
        single.join(","),
        pair.join(",")
    )
}

fn chain(frames: &[String]) -> String {
    format!("{{\"type\":\"Sequence\",\"processors\":[{}]}}", frames.join(","))
}

fn read(truncation: &str, padding: &str, frame: &str, text: &str) -> Result<Vec<i64>, String> {
    tokenise(&built(ONE, truncation, padding, frame), text).map(|tokens| tokens.ids)
}

fn refused(why: &str) -> Result<Vec<i64>, String> {
    Err(format!("tokenising \"a a a a\": {why}"))
}

const ROBERTA: &str = "{\"type\":\"RobertaProcessing\",\"sep\":[\"</s>\",2],\"cls\":[\"<s>\",3],\
                       \"trim_offsets\":true,\"add_prefix_space\":true}";

#[test]
fn marks_stand_around_a_phrase() {
    assert_eq!(read("null", "null", ROBERTA, "a a"), Ok(vec![3, 1, 1, 2]));
    let framed = template(&[mark("<s>"), place("A")], &[place("A"), place("B")]);
    assert_eq!(read("null", "null", &framed, "a"), Ok(vec![8, 1]));
}

#[test]
fn a_cut_needs_room_for_more_than_its_overlap() {
    assert_eq!(read(&cut(4, 1), "null", ROBERTA, "a a a a"), Ok(vec![3, 1, 1, 2]));
    assert_eq!(read(&cut(2, 0), "null", ROBERTA, "a a a a"), Ok(vec![3, 2]));
    assert_eq!(read(&cut(2, 9), "null", ROBERTA, "a a a a"), Ok(vec![3, 2]));
    assert_eq!(read(&cut(4, 2), "null", ROBERTA, "a a a a"), refused(NO_ROOM));
    assert_eq!(read(&cut(1, 0), "null", ROBERTA, "a a a a"), refused(NO_ROOM));
    assert_eq!(read(&cut(3, 3), "null", "null", "a a a a"), refused(NO_ROOM));
    assert_eq!(read(&cut(3, 2), "null", "null", "a a a a"), Ok(vec![1, 1, 1]));
}

#[test]
fn every_place_of_a_template_has_to_be_filled() {
    let both = [place("A"), place("B")];
    let second = template(&[place("B")], &both);
    assert_eq!(read("null", "null", &second, "a a a a"), refused(NO_FRAME));
    let unknown = template(&[mark("</s>"), place("A")], &both);
    assert_eq!(read("null", "null", &unknown, "a a a a"), refused(NO_FRAME));
    // Only the template for one text is used.
    let unused = template(&[place("A")], &[mark("</s>"), place("B")]);
    assert_eq!(read("null", "null", &unused, "a"), Ok(vec![1]));
}

#[test]
fn a_chain_hands_on_what_it_made() {
    let both = [place("B"), mark("<s>"), place("A")];
    let two = template(&[place("A"), mark("<s>")], &both);
    let three = template(&[mark("<s>"), place("A"), mark("<s>")], &both);
    assert_eq!(read("null", "null", &chain(&[two.clone()]), "a"), Ok(vec![1, 8]));
    // What the first makes of one text is a pair to the second.
    assert_eq!(read("null", "null", &chain(&[two.clone(), two.clone()]), "a"), Ok(vec![8, 8, 1]));
    assert_eq!(read("null", "null", &chain(&[three.clone(), two.clone()]), "a a a a"), refused(NO_FRAME));
    let nested = chain(&[chain(&[two.clone()]), ROBERTA.to_string()]);
    assert!(read("null", "null", &nested, "a").is_ok());
    let broken = chain(&[chain(&[template(&[place("B")], &both)])]);
    assert_eq!(read("null", "null", &broken, "a a a a"), refused(NO_FRAME));
}

#[test]
fn a_phrase_is_filled_up_to_what_can_be_held() {
    let padding = |strategy: &str| {
        format!(
            "{{\"strategy\":{strategy},\"direction\":\"Right\",\"pad_to_multiple_of\":null,\
             \"pad_id\":5,\"pad_type_id\":0,\"pad_token\":\"_\"}}"
        )
    };
    assert_eq!(read("null", &padding("{\"Fixed\":3}"), "null", "a"), Ok(vec![1, 5, 5]));
    assert_eq!(read("null", &padding("\"BatchLongest\""), "null", "a"), Ok(vec![1]));
    let endless = padding(&format!("{{\"Fixed\":{}}}", usize::MAX));
    assert_eq!(read("null", &endless, "null", "a a a a"), refused(NO_END));
}

#[test]
fn a_build_is_objected_to_for_the_first_thing_wrong() {
    let build = |cut, marks, framed| Build {
        rewriting: None,
        splitting: None,
        adding: None,
        cut,
        padding: None,
        marks,
        framed,
    };
    assert_eq!(objection(&build(None, 2, true)), None);
    assert_eq!(objection(&build(Some((10, 9)), 2, true)), Some(NO_ROOM));
    assert_eq!(objection(&build(Some((10, 9)), 0, false)), Some(NO_FRAME));
    assert_eq!(objection(&build(Some((1, 0)), 2, false)), Some(NO_ROOM));
    let endless = Build { padding: Some((None, Some(usize::MAX))), ..build(None, 0, true) };
    assert_eq!(objection(&endless), Some(NO_END));
    let wrong = Build { adding: Some(STRIPS), ..build(Some((1, 0)), 2, false) };
    assert_eq!(objection(&wrong), Some(STRIPS));
    let wrong = Build { splitting: Some(SPLITS), ..wrong };
    assert_eq!(objection(&wrong), Some(SPLITS));
    let wrong = Build { rewriting: Some(REPLACES), ..wrong };
    assert_eq!(objection(&wrong), Some(REPLACES));
}

fn read_by(normalizer: &str, pre_tokenizer: &str, added: &str) -> Result<Vec<i64>, String> {
    tokenise(&made_of(normalizer, pre_tokenizer, added), "a a a a").map(|tokens| tokens.ids)
}

fn all(kind: &str, parts: &[&str]) -> String {
    format!("{{\"type\":\"Sequence\",\"{kind}\":[{}]}}", parts.join(","))
}

const SPACES: &str = "{\"type\":\"Whitespace\"}";

const LOWER: &str = "{\"type\":\"Lowercase\"}";

#[test]
fn a_normalizer_that_could_give_out_is_refused() {
    let by = |normalizer: &str| read_by(normalizer, SPACES, "");
    let table = "{\"type\":\"Precompiled\",\"precompiled_charsmap\":\"BAAAAAAAAAA=\"}";
    let replace = "{\"type\":\"Replace\",\"pattern\":{\"String\":\"b\"},\"content\":\"c\"}";
    assert_eq!(by(replace), refused(REPLACES));
    let prepend = |text: &str| format!("{{\"type\":\"Prepend\",\"prepend\":\"{text}\"}}");
    assert_eq!(by(&prepend("")), refused(NO_PREFIX));
    assert_eq!(by(&prepend("a ")), Ok(vec![1, 1, 1, 1, 1]));
    assert_eq!(by(LOWER), Ok(vec![1, 1, 1, 1]));
    let chained = all("normalizers", &[LOWER, &all("normalizers", &[&prepend(""), replace])]);
    assert_eq!(by(&chained), refused(NO_PREFIX));
    assert_eq!(by(&all("normalizers", &[LOWER, LOWER])), Ok(vec![1, 1, 1, 1]));
    assert_eq!(by(&all("normalizers", &[])), Ok(vec![1, 1, 1, 1]));
    assert_eq!(by(table), refused(PRECOMPILED));
}

#[test]
fn a_pre_tokenizer_that_could_give_out_is_refused() {
    let by = |pre_tokenizer: &str| read_by("null", pre_tokenizer, "");
    let split = "{\"type\":\"Split\",\"pattern\":{\"Regex\":\"a\"},\"behavior\":\"Removed\",\
                 \"invert\":false}";
    assert_eq!(by(split), refused(SPLITS));
    let fixed = |n: usize| format!("{{\"type\":\"FixedLength\",\"length\":{n}}}");
    assert_eq!(by(&fixed(0)), refused(NO_LENGTH));
    assert_eq!(by(&fixed(1)), Ok(vec![1, 0, 1, 0, 1, 0, 1]));
    assert_eq!(by(&all("pretokenizers", &[SPACES, &fixed(0), split])), refused(NO_LENGTH));
    assert_eq!(by(&all("pretokenizers", &[SPACES, SPACES])), Ok(vec![1, 1, 1, 1]));
    assert_eq!(by("null"), Ok(vec![0]));
}

#[test]
fn added_tokens_that_could_clash_are_refused() {
    let token = |id: usize, content: &str, left: bool, right: bool, rewritten: bool| {
        format!(
            "{{\"id\":{id},\"content\":\"{content}\",\"single_word\":false,\"lstrip\":{left},\
             \"rstrip\":{right},\"normalized\":{rewritten},\"special\":false}}"
        )
    };
    let both = [token(2, "x", true, false, false), token(3, "y", false, true, false)].join(",");
    assert_eq!(read_by("null", SPACES, &both), refused(STRIPS));
    assert_eq!(read_by("null", SPACES, &token(2, "x", true, true, true)), refused(STRIPS));
    assert!(read_by("null", SPACES, &token(2, "x", true, false, true)).is_ok());
    assert!(read_by(LOWER, SPACES, &token(2, "x", false, true, true)).is_ok());
    let strip = "{\"type\":\"Strip\",\"strip_left\":true,\"strip_right\":true}";
    assert!(read_by(strip, SPACES, &token(2, "x", false, true, true)).is_ok());
    assert_eq!(read_by(strip, SPACES, &token(2, " ", false, true, true)), refused(VANISHES));
    assert_eq!(
        read_by(&all("normalizers", &[LOWER, strip]), SPACES, &token(2, " ", false, false, true)),
        refused(VANISHES)
    );
}

#[test]
fn a_text_that_is_cut_has_one_place() {
    let twice = template(&[place("A"), place("A")], &[place("A"), place("B")]);
    assert_eq!(read("null", "null", &twice, "a"), Ok(vec![1, 1]));
    assert_eq!(read(&cut(3, 0), "null", &twice, "a a a a"), refused(NO_FRAME));
    let once = template(&[place("A"), mark("<s>")], &[place("B"), place("A"), place("B")]);
    assert_eq!(read(&cut(3, 0), "null", &once, "a a a a"), Ok(vec![1, 1, 8]));
    assert_eq!(read(&cut(3, 0), "null", &chain(&[once.clone(), once]), "a a a a"), refused(NO_FRAME));
}

#[test]
fn a_tokenizer_says_how_it_is_built() {
    let build = build_of(&built(ONE, &cut(9, 2), "null", ROBERTA));
    assert_eq!((build.cut, build.padding, build.marks, build.framed), (Some((9, 2)), None, 2, true));
    assert_eq!((build.rewriting, build.splitting, build.adding), (None, None, None));
    assert_eq!(objection(&build), None);
}

#[test]
fn what_was_encoded_is_read_as_it_is() {
    let tokens = read_encoded("x", Ok((vec![4, 5], vec![1, 0]))).unwrap();
    assert_eq!((tokens.shape, tokens.ids, tokens.mask), ([1, 2], vec![4, 5], vec![1, 0]));
    assert_eq!(read_encoded("x", Err("no".into())).err(), Some("tokenising \"x\": no".to_string()));
}
