use conf_sync::settings::{BasePaths, ConfigHandler, DriveConfig, OauthConfig, Settings};

#[test]
fn default_settings_use_the_app_name() {
    let s = Settings::default();
    assert_eq!(s.gdrive.app_folder, "conf-sync");
    assert_eq!(s.oauth.client_id, "");
    assert!(s.oauth.scopes.is_empty());
    let d = DriveConfig::default();
    assert_eq!(d.app_folder, "conf-sync");
}

#[test]
fn app_secret_carries_the_oauth_fields() {
    let mut oauth = OauthConfig::default();
    oauth.client_id = "id-1".to_string();
    oauth.client_secret = "SECRET-REDACTED".to_string();
    oauth.project_id = "proj".to_string();
    oauth.auth_uri = "https://auth.example".to_string();
    oauth.token_uri = "https://token.example".to_string();
    oauth.auth_provider_x509_cert_url = "https://certs.example".to_string();
    oauth.redirect_uris = vec!["http://localhost".to_string()];
    oauth.scopes = vec!["drive".to_string()];
    let settings = Settings { gdrive: DriveConfig::default(), oauth };
    let paths = BasePaths {
        conf_dir: "/tmp/conf".to_string(),
        conf_path: "/tmp/conf/settings.toml".to_string(),
        data_dir: "/tmp/data".to_string(),
    };
    let handler = ConfigHandler::from_settings(settings, paths);
    assert_eq!(handler.app_name, "conf-sync");
    let secret = handler.get_app_secret();
    assert_eq!(secret.client_id, "id-1");
    assert_eq!(secret.client_secret, "SECRET-REDACTED");
    assert_eq!(secret.project_id.as_deref(), Some("proj"));
    assert_eq!(secret.auth_uri, "https://auth.example");
    assert_eq!(secret.token_uri, "https://token.example");
    assert_eq!(secret.redirect_uris, vec!["http://localhost".to_string()]);
    assert_eq!(secret.auth_provider_x509_cert_url.as_deref(), Some("https://certs.example"));
    assert_eq!(secret.client_email.as_deref(), Some(""));
    assert_eq!(secret.client_x509_cert_url.as_deref(), Some(""));
}
