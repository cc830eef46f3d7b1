//! Application settings: the on-disk configuration shape, the derived
//! base paths, and the OAuth application secret assembled from them.
//! Reading and writing the settings file is the surrounding process's
//! work; the shapes and the pure assembly steps live here.
use vstd::prelude::*;

verus! {

/// The application's name, under which its config and data directories
/// and its secret-store entries are filed.
pub fn app_name() -> (r: String)
    ensures
        r@ == "conf-sync"@,
{
    "conf-sync".to_owned()
}

/// A copy of a string vector with the same mathematical value.
fn clone_string_vec(v: &Vec<String>) -> (r: Vec<String>)
    ensures
        r@ == v@,
{
    let r = v.clone();
    proof {
        assert forall|i: int| 0 <= i < v@.len() implies r@[i] == v@[i] by {
            assert(vstd::pervasive::cloned::<String>(v[i], r[i]));
        }
        assert(r@ =~= v@);
    }
    r
}

/// The OAuth client configuration as the settings file holds it.
#[derive(Debug)]
pub struct OauthConfig {
    pub client_id: String,
    pub client_secret: String,
    pub project_id: String,
    pub auth_uri: String,
    pub token_uri: String,
    pub auth_provider_x509_cert_url: String,
    pub redirect_uris: Vec<String>,
    pub scopes: Vec<String>,
}

impl Clone for OauthConfig {
    fn clone(&self) -> (r: Self)
        ensures
            r.client_id@ == self.client_id@,
            r.client_secret@ == self.client_secret@,
            r.project_id@ == self.project_id@,
            r.auth_uri@ == self.auth_uri@,
            r.token_uri@ == self.token_uri@,
            r.auth_provider_x509_cert_url@ == self.auth_provider_x509_cert_url@,
            r.redirect_uris@ == self.redirect_uris@,
            r.scopes@ == self.scopes@,
    {
        OauthConfig {
            client_id: self.client_id.clone(),
            client_secret: self.client_secret.clone(),
            project_id: self.project_id.clone(),
            auth_uri: self.auth_uri.clone(),
            token_uri: self.token_uri.clone(),
            auth_provider_x509_cert_url: self.auth_provider_x509_cert_url.clone(),
            redirect_uris: clone_string_vec(&self.redirect_uris),
            scopes: clone_string_vec(&self.scopes),
        }
    }
}

impl Default for OauthConfig {
    /// All fields empty: the shape written out when no settings file
    /// exists yet.
    fn default() -> (r: Self)
        ensures
            r.client_id@ == Seq::<char>::empty(),
            r.client_secret@ == Seq::<char>::empty(),
            r.project_id@ == Seq::<char>::empty(),
            r.auth_uri@ == Seq::<char>::empty(),
            r.token_uri@ == Seq::<char>::empty(),
            r.auth_provider_x509_cert_url@ == Seq::<char>::empty(),
            r.redirect_uris@ == Seq::<String>::empty(),
            r.scopes@ == Seq::<String>::empty(),
    {
        OauthConfig {
            client_id: String::new(),
            client_secret: String::new(),
            project_id: String::new(),
            auth_uri: String::new(),
            token_uri: String::new(),
            auth_provider_x509_cert_url: String::new(),
            redirect_uris: Vec::new(),
            scopes: Vec::new(),
        }
    }
}

/// The standalone client configuration shape, read from its own file.
#[derive(Debug, Clone)]
pub struct ClientConfig {
    pub client_id: String,
    pub client_secret: String,
    pub project_id: String,
    pub auth_uri: String,
    pub token_uri: String,
    pub auth_provider_x509_cert_url: String,
    pub redirect_uris: Vec<String>,
    pub scopes: Vec<String>,
}

impl Default for ClientConfig {
    fn default() -> (r: Self)
        ensures
            r.client_id@ == Seq::<char>::empty(),
            r.client_secret@ == Seq::<char>::empty(),
            r.project_id@ == Seq::<char>::empty(),
            r.auth_uri@ == Seq::<char>::empty(),
            r.token_uri@ == Seq::<char>::empty(),
            r.auth_provider_x509_cert_url@ == Seq::<char>::empty(),
            r.redirect_uris@ == Seq::<String>::empty(),
            r.scopes@ == Seq::<String>::empty(),
    {
        ClientConfig {
            client_id: String::new(),
            client_secret: String::new(),
            project_id: String::new(),
            auth_uri: String::new(),
            token_uri: String::new(),
            auth_provider_x509_cert_url: String::new(),
            redirect_uris: Vec::new(),
            scopes: Vec::new(),
        }
    }
}

/// The cloud-drive section of the settings.
#[derive(Debug, Clone)]
pub struct DriveConfig {
    pub app_folder: String,
}

impl Default for DriveConfig {
    /// The remote folder defaults to the application's name.
    fn default() -> (r: Self)
        ensures
            r.app_folder@ == "conf-sync"@,
    {
        DriveConfig { app_folder: app_name() }
    }
}

/// The whole settings file: drive section and OAuth section.
#[derive(Debug, Clone)]
pub struct Settings {
    pub gdrive: DriveConfig,
    pub oauth: OauthConfig,
}

impl Default for Settings {
    fn default() -> (r: Self)
        ensures
            r.gdrive.app_folder@ == "conf-sync"@,
            r.oauth.client_id@ == Seq::<char>::empty(),
            r.oauth.scopes@ == Seq::<String>::empty(),
    {
        Settings { gdrive: DriveConfig::default(), oauth: OauthConfig::default() }
    }
}

/// The directories the application works in: its config directory, the
/// settings file within it, and its data directory.
#[derive(Debug, Clone)]
pub struct BasePaths {
    pub conf_dir: String,
    pub conf_path: String,
    pub data_dir: String,
}

/// The loaded configuration: the settings, the OAuth section pulled out
/// for direct use, and the resolved base paths.
#[derive(Debug, Clone)]
pub struct ConfigHandler {
    pub app_name: String,
    pub settings: Settings,
    pub oauth_config: OauthConfig,
    pub base_paths: BasePaths,
}

/// The OAuth application secret in the shape the authorization flow
/// consumes: the client configuration's fields carried over, the two
/// certificate fields made optional, and the email fields left empty.
#[derive(Debug, Clone)]
pub struct AppSecret {
    pub client_id: String,
    pub client_secret: String,
    pub project_id: Option<String>,
    pub auth_uri: String,
    pub token_uri: String,
    pub redirect_uris: Vec<String>,
    pub auth_provider_x509_cert_url: Option<String>,
    pub client_email: Option<String>,
    pub client_x509_cert_url: Option<String>,
}

impl ConfigHandler {
    /// Assemble the handler from parsed settings and resolved paths:
    /// the pure tail of configuration loading, after all file reads.
    pub fn from_settings(settings: Settings, base_paths: BasePaths) -> (r: ConfigHandler)
        ensures
            r.app_name@ == "conf-sync"@,
            r.settings == settings,
            r.oauth_config.client_id@ == settings.oauth.client_id@,
            r.oauth_config.client_secret@ == settings.oauth.client_secret@,
            r.oauth_config.scopes@ == settings.oauth.scopes@,
            r.oauth_config.redirect_uris@ == settings.oauth.redirect_uris@,
            r.base_paths == base_paths,
    {
        let oauth_config = settings.oauth.clone();
        ConfigHandler { app_name: app_name(), settings, oauth_config, base_paths }
    }

    /// The application secret assembled from the OAuth configuration:
    /// each field carried over unchanged, the email fields empty.
    pub fn get_app_secret(&self) -> (r: AppSecret)
        ensures
            r.client_id@ == self.oauth_config.client_id@,
            r.client_secret@ == self.oauth_config.client_secret@,
            r.project_id matches Some(p) && p@ == self.oauth_config.project_id@,
            r.auth_uri@ == self.oauth_config.auth_uri@,
            r.token_uri@ == self.oauth_config.token_uri@,
            r.redirect_uris@ == self.oauth_config.redirect_uris@,
            r.auth_provider_x509_cert_url matches Some(u) && u@
                == self.oauth_config.auth_provider_x509_cert_url@,
            r.client_email matches Some(e) && e@ == Seq::<char>::empty(),
            r.client_x509_cert_url matches Some(u) && u@ == Seq::<char>::empty(),
    {
        let cfg = self.oauth_config.clone();
        AppSecret {
            client_id: cfg.client_id,
            client_secret: cfg.client_secret,
            project_id: Some(cfg.project_id),
            auth_uri: cfg.auth_uri,
            token_uri: cfg.token_uri,
            redirect_uris: cfg.redirect_uris,
            auth_provider_x509_cert_url: Some(cfg.auth_provider_x509_cert_url),
            client_email: Some(String::new()),
            client_x509_cert_url: Some(String::new()),
        }
    }
}

} // verus!
