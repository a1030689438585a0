use dotsym::context::config_file_path;
use dotsym::error::DotsymError;

#[test]
fn test_config_not_found_error() {
    let fake_home = "/tmp/fake-home";
    let config_path = config_file_path(fake_home);
    let exists = false;
    let result: Result<(), DotsymError> = if !exists {
        Err(DotsymError::ConfigNotFound { path: config_path })
    } else {
        Ok(())
    };

    assert!(result.is_err());
    if let Err(DotsymError::ConfigNotFound { path }) = result {
        assert!(path.ends_with(".config/dotsym/dotsym.toml"));
        assert!(path.contains("Run 'dotsym setup' to create one") == false);
        let e = DotsymError::ConfigNotFound { path };
        assert!(e.message().contains("Run 'dotsym setup' to create one"));
    } else {
        panic!("Expected ConfigNotFound error");
    }
}

#[test]
fn test_config_invalid_error() {
    let config_path = config_file_path("/tmp/fake-home");
    let parsed: Result<toml::Value, toml::de::Error> = toml::from_str("invalid toml content [[[");
    let result: Result<toml::Value, DotsymError> =
        parsed.map_err(|e| DotsymError::ConfigInvalid { path: config_path.clone(), source: e.to_string() });

    assert!(result.is_err());
    if let Err(DotsymError::ConfigInvalid { path, source: _ }) = result {
        assert_eq!(path, config_path);
    } else {
        panic!("Expected ConfigInvalid error");
    }
}

#[test]
fn config_file_path_examples() {
    assert_eq!(config_file_path("/home/me"), "/home/me/.config/dotsym/dotsym.toml");
    assert_eq!(config_file_path("/home/me/"), "/home/me/.config/dotsym/dotsym.toml");
    assert_eq!(config_file_path(""), ".config/dotsym/dotsym.toml");
}
