//! The credentials the tool works with, and how they are put together from
//! the saved configuration, the command line and the keychain.
use vstd::prelude::*;

verus! {

/// The Jira site and credentials.
pub struct Config {
    pub jira_url: String,
    pub jira_email: String,
    pub token: String,
}

impl Default for Config {
    fn default() -> (r: Self)
        ensures
            r.jira_url@ == Seq::<char>::empty(),
            r.jira_email@ == Seq::<char>::empty(),
            r.token@ == Seq::<char>::empty(),
    {
        Config { jira_url: String::new(), jira_email: String::new(), token: String::new() }
    }
}

/// What the configuration file holds: the site and the email, not the token.
pub struct FileConfig {
    pub jira_url: String,
    pub jira_email: String,
}

/// The text of an optional value given on the command line, else `fallback`.
pub open spec fn given_or(given: Option<&str>, fallback: Seq<char>) -> Seq<char> {
    match given {
        Some(s) => s@,
        None => fallback,
    }
}

fn string_given_or(given: Option<&str>, fallback: String) -> (res: String)
    ensures
        res@ == given_or(given, fallback@),
{
    match given {
        Some(s) => String::from_str(s),
        None => fallback,
    }
}

/// Puts the configuration together: the site and email from the command
/// line where given, else from the configuration file where it could be
/// read, else empty; the token from the command line where given, else the
/// one stored in the keychain, else empty. `stored_token` is looked up only
/// where no token is given.
pub fn load(
    file: Option<FileConfig>,
    url: Option<&str>,
    email: Option<&str>,
    token: Option<&str>,
    stored_token: Option<String>,
) -> (cfg: Config)
    ensures
        cfg.jira_url@ == given_or(
            url,
            match file {
                Some(f) => f.jira_url@,
                None => Seq::empty(),
            },
        ),
        cfg.jira_email@ == given_or(
            email,
            match file {
                Some(f) => f.jira_email@,
                None => Seq::empty(),
            },
        ),
        cfg.token@ == given_or(
            token,
            match stored_token {
                Some(t) => t@,
                None => Seq::empty(),
            },
        ),
{
    let mut cfg = Config::default();
    match file {
        Some(f) => {
            cfg.jira_url = f.jira_url;
            cfg.jira_email = f.jira_email;
        },
        None => {},
    }
    let stored = match stored_token {
        Some(t) => t,
        None => String::new(),
    };
    Config {
        jira_url: string_given_or(url, cfg.jira_url),
        jira_email: string_given_or(email, cfg.jira_email),
        token: string_given_or(token, stored),
    }
}

impl Config {
    /// The site, the email or the token is missing.
    pub open spec fn incomplete(&self) -> bool {
        self.jira_url@.len() == 0 || self.jira_email@.len() == 0 || self.token@.len() == 0
    }

    /// The credentials must be asked for: the user asked to reconfigure, or
    /// a part of them is missing.
    pub fn needs_setup(&self, reconfigure: bool) -> (res: bool)
        ensures
            res == (reconfigure || self.incomplete()),
    {
        reconfigure || self.jira_url.unicode_len() == 0 || self.jira_email.unicode_len() == 0
            || self.token.unicode_len() == 0
    }

    /// The site offered when the credentials are asked for: the saved one,
    /// or an example where none is saved.
    pub fn suggested_url(&self) -> (res: String)
        ensures
            res@ == (if self.jira_url@.len() == 0 {
                "https://your-org.atlassian.net"@
            } else {
                self.jira_url@
            }),
    {
        if self.jira_url.unicode_len() == 0 {
            String::from_str("https://your-org.atlassian.net")
        } else {
            self.jira_url.clone()
        }
    }
}

} // verus!
