//! Finding the current manifest: the installer's settings name it, and the
//! content delivery network serves it next to the objects.
use vstd::prelude::*;
use vstd::string::StringExecFns;

verus! {

/// The host that serves the objects and the manifest.
pub const CDN_HOST: &'static str = "la.cdn.gameon.jp";

/// Where the installer's settings are published.
pub const INSTALL_INI_URL: &'static str = "http://games.cdn.gameon.jp/lostark/install.ini";

/// Where manifests are published.
pub const PATCH_BASE: &'static str = "http://la.cdn.gameon.jp/la/patch/";

/// The user agent sent with every request.
pub const USER_AGENT: &'static str = "PmangDownloader_27cf2b254140ab9a07a7b8615e18d902c0a26edc";

/// The settings section that names the manifest.
pub const VERSION_SECTION: &'static str = "VERSION";

/// The settings key that names the manifest.
pub const INDEX_KEY: &'static str = "INDEX";

/// The value of `key` in `section` of the INI text `text`: nothing if the
/// text is not INI, `Some(None)` if the settings have no such value.
pub uninterp spec fn ini_value_of(text: Seq<char>, section: Seq<char>, key: Seq<char>) -> Option<
    Option<Seq<char>>,
>;

/// Relies on ini::Ini::load_from_str, which parses INI text and fails on
/// text that is not INI, and on ini::Ini::get_from, which looks up `key` in
/// `section` of what was parsed.
#[verifier::external_body]
fn ini_lookup(text: &str, section: &str, key: &str) -> (r: Option<Option<String>>)
    ensures
        r is None <==> ini_value_of(text@, section@, key@) is None,
        r matches Some(v) ==> (v is None <==> ini_value_of(text@, section@, key@).unwrap() is None),
        r matches Some(Some(v)) ==> ini_value_of(text@, section@, key@) == Some(Some(v@)),
{
    let settings = ini::Ini::load_from_str(text).ok()?;
    Some(settings.get_from(Some(section), key).map(String::from))
}

/// Why the manifest could not be named.
#[derive(Clone, Copy, Debug, PartialEq, Eq, Structural)]
pub enum BootstrapError {
    /// The settings are not INI text.
    UnreadableIni,
    /// The settings have no manifest entry.
    MissingIndex,
    /// The manifest entry is empty.
    EmptyIndex,
}

/// The manifest's name from the settings' entry for it.
pub fn index_name(value: Option<String>) -> (r: Result<String, BootstrapError>)
    ensures
        value is None ==> r == Err::<String, BootstrapError>(BootstrapError::MissingIndex),
        value matches Some(v) ==> if v@.len() == 0 {
            r == Err::<String, BootstrapError>(BootstrapError::EmptyIndex)
        } else {
            r matches Ok(s) && s@ == v@
        },
{
    match value {
        None => Err(BootstrapError::MissingIndex),
        Some(v) => {
            if v.as_str().is_empty() {
                Err(BootstrapError::EmptyIndex)
            } else {
                Ok(v)
            }
        },
    }
}

/// The manifest's name from the installer's settings text.
pub fn index_name_from_ini(text: &str) -> (r: Result<String, BootstrapError>)
    ensures
        match ini_value_of(text@, VERSION_SECTION@, INDEX_KEY@) {
            None => r == Err::<String, BootstrapError>(BootstrapError::UnreadableIni),
            Some(None) => r == Err::<String, BootstrapError>(BootstrapError::MissingIndex),
            Some(Some(v)) => if v.len() == 0 {
                r == Err::<String, BootstrapError>(BootstrapError::EmptyIndex)
            } else {
                r matches Ok(s) && s@ == v
            },
        },
{
    match ini_lookup(text, VERSION_SECTION, INDEX_KEY) {
        None => Err(BootstrapError::UnreadableIni),
        Some(value) => index_name(value),
    }
}

/// The address of the manifest named `name`.
pub fn manifest_url(name: &str) -> (r: String)
    ensures
        r@ == PATCH_BASE@ + name@,
{
    let mut url = String::from_str(PATCH_BASE);
    url.append(name);
    url
}

} // verus!
