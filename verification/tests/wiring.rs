use two_khz::wiring::{
    client_data_dir, default_data_dir, default_db_path, default_model_dir, hostname, join_path,
    package_name, set_data_dir, Connection, ServerConfig, Surroundings, Wiring,
};

fn nowhere() -> Surroundings {
    Surroundings { chosen: None, set: None, private: None, data_home: None, home: None }
}

#[test]
fn the_repository_is_where_data_is_looked_for() {
    assert_eq!(default_data_dir(Some("/set"), Some("/repo")), "/set");
    assert_eq!(default_data_dir(None, Some("/repo")), "/repo/data");
    assert_eq!(default_db_path(None, None), "data/qsuggest.db");
    assert_eq!(default_model_dir(None, Some("/repo")), "/repo/data/models");
    assert_eq!(join_path("/", "x"), "/x");
}

#[test]
fn a_client_keeps_its_files_where_it_is_told_first() {
    assert_eq!(client_data_dir(&nowhere()), "./.local/share/qsuggest");
    let at = Surroundings { home: Some("/home/x".into()), ..nowhere() };
    assert_eq!(client_data_dir(&at), "/home/x/.local/share/qsuggest");
    let at = Surroundings { data_home: Some("/xdg".into()), ..at };
    assert_eq!(client_data_dir(&at), "/xdg/qsuggest");
    let at = Surroundings { private: Some("/data/user/0/p/files/qsuggest".into()), ..at };
    assert_eq!(client_data_dir(&at), "/data/user/0/p/files/qsuggest");
    let at = Surroundings { set: Some("/set".into()), ..at };
    assert_eq!(client_data_dir(&at), "/set");
    let at = Surroundings { chosen: Some("/chosen".into()), ..at };
    assert_eq!(client_data_dir(&at), "/chosen");
    let mut slot = None;
    set_data_dir(&mut slot, "/a".into());
    set_data_dir(&mut slot, "/b".into());
    assert_eq!(slot.as_deref(), Some("/a"));
}

#[test]
fn a_package_is_read_off_a_command_line() {
    assert_eq!(package_name("com.x.y:remote\0--arg").as_deref(), Some("com.x.y"));
    assert_eq!(package_name("\0x"), None);
}

#[test]
fn the_environment_comes_first() {
    let wired = |server: Option<&str>, token: Option<&str>, stored: bool, local: bool| {
        Wiring::from_env(
            server.map(str::to_string),
            token.map(str::to_string),
            if stored {
                Some(ServerConfig { base: "http://stored".into(), token: "s".into() })
            } else {
                None
            },
            if local { Some(("/d".into(), "/d/q.db".into())) } else { None },
            "/client".into(),
            "nas",
        )
    };
    let remote = wired(Some("http://env"), Some("t"), true, true).ok().unwrap();
    assert!(remote.is_remote());
    assert_eq!(remote.db_path(), "/client/catalog.db");
    assert_eq!(remote.data_dir(), "/client");
    assert!(matches!(
        remote.into_backend("/m".into()),
        Connection::Remote { base, .. } if base == "http://env"
    ));
    let refused = wired(Some("http://env"), None, true, true).err().unwrap();
    assert_eq!(
        refused,
        "TWO_KHZ_SERVER is set but TWO_KHZ_TOKEN is not.\nPair this device on the server:\n  two-khz-server pair --name \"nas\" --scope play"
    );
    assert!(wired(None, None, true, true).ok().unwrap().is_remote());
    let local = wired(None, None, false, true).ok().unwrap();
    assert!(!local.is_remote());
    assert_eq!(local.db_path(), "/d/q.db");
    assert_eq!(
        wired(None, None, false, false).err().as_deref(),
        Some("not paired with a server yet")
    );
}

#[test]
fn a_pairing_is_trimmed_as_it_is_typed() {
    let config = ServerConfig::typed(" http://nas:7700// ", " tok ").unwrap();
    assert_eq!(config.base, "http://nas:7700");
    assert_eq!(config.token, "tok");
    assert!(ServerConfig::typed("/", "t").is_none());
    assert!(ServerConfig::typed("http://x", "  ").is_none());
    assert_eq!(ServerConfig::path("/c"), "/c/server.json");
}

#[test]
fn a_device_without_a_name_has_a_stand_in() {
    assert_eq!(hostname(Some(" nas\n")), "nas");
    assert_eq!(hostname(Some("\n")), "this device");
    assert_eq!(hostname(None), "this device");
}
