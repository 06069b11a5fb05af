//! Authentication decisions: which user a client's first message proves it
//! to be, and what outside check is still needed.
use vstd::prelude::*;
use vstd::string::*;
use vstd::utf8::*;
use crate::message::{Message, MessageView};
use crate::options::AuthenticationOption;
use crate::topic::{split_chars, split_on, string_views};
use crate::topic_tree::str_equal;
use crate::wire::utf8_str;

verus! {

/// What `http_auth_basic` decodes from a Basic credentials string: the
/// user id and the password, or `None` where the string is not base64 of
/// UTF-8 text holding a `:`.
pub uninterp spec fn basic_credentials(s: Seq<char>) -> Option<(Seq<char>, Seq<char>)>;

/// Relies on `http_auth_basic::Credentials::decode`: it base64-decodes the
/// string, requires UTF-8, and splits the text at its first `:` into the
/// user id and the password.
#[verifier::external_body]
fn decode_credentials(s: &str) -> (r: Option<(String, String)>)
    ensures
        r is Some <==> basic_credentials(s@) is Some,
        r matches Some((user, password)) ==> basic_credentials(s@) == Some((user@, password@))
            && !user@.contains(':'),
{
    match http_auth_basic::Credentials::decode(s.to_string()) {
        Ok(c) => Some((c.user_id, c.password)),
        Err(_) => None,
    }
}

/// The user and password that credential bytes carry.
pub open spec fn credentials_of(bytes: Seq<u8>) -> Option<(Seq<char>, Seq<char>)> {
    if valid_utf8(bytes) {
        basic_credentials(decode_utf8(bytes))
    } else {
        None
    }
}

/// Decodes credential bytes: UTF-8 text of an HTTP Basic credentials string.
pub fn decode_credential_bytes(bytes: &[u8]) -> (r: Option<(String, String)>)
    ensures
        r is Some <==> credentials_of(bytes@) is Some,
        r matches Some((user, password)) ==> credentials_of(bytes@) == Some((user@, password@)),
{
    match utf8_str(bytes) {
        Some(text) => {
            proof {
                broadcast use encode_utf8_decode_utf8;

                assert(decode_utf8(encode_utf8(text@)) == text@);
            }
            decode_credentials(text)
        },
        None => None,
    }
}

/// `line` without one trailing carriage return.
pub open spec fn strip_cr(line: Seq<char>) -> Seq<char> {
    if line.len() > 0 && line.last() == '\r' {
        line.drop_last()
    } else {
        line
    }
}

/// The lines of a text: split at newlines, without a last empty line, each
/// without a trailing carriage return.
pub open spec fn text_lines(s: Seq<char>) -> Seq<Seq<char>> {
    let parts = split_on(s, '\n');
    let kept = if parts.last().len() == 0 {
        parts.drop_last()
    } else {
        parts
    };
    kept.map_values(|l: Seq<char>| strip_cr(l))
}

/// The password file's table: for each line, the user before its first `:`
/// and the whole line. `None` where a line has no `:`.
pub open spec fn spec_load_htpasswd(contents: Seq<char>) -> Option<Seq<(Seq<char>, Seq<char>)>> {
    let lines = text_lines(contents);
    if forall|i: int| 0 <= i < lines.len() ==> (#[trigger] lines[i]).contains(':') {
        Some(Seq::new(lines.len(), |i: int| (split_on(lines[i], ':')[0], lines[i])))
    } else {
        None
    }
}

fn strip_line(line: &String) -> (r: String)
    ensures
        r@ == strip_cr(line@),
{
    let n = line.as_str().unicode_len();
    if n > 0 && line.as_str().get_char(n - 1) == '\r' {
        line.as_str().substring_char(0, n - 1).to_owned()
    } else {
        line.clone()
    }
}

/// Reads a password file's text into its table.
pub fn load_htpasswd(contents: &str) -> (r: Result<Vec<(String, String)>, String>)
    ensures
        r is Ok <==> spec_load_htpasswd(contents@) is Some,
        r matches Ok(t) ==> Some(t@.map_values(|e: (String, String)| (e.0@, e.1@))) == spec_load_htpasswd(contents@),
{
    let parts = split_chars(contents, '\n');
    let ghost pv = string_views(parts@);
    proof {
        crate::topic::lemma_split_on_nonempty(contents@, '\n');
    }
    let mut n = parts.len();
    if parts[n - 1].as_str().unicode_len() == 0 {
        n = n - 1;
    }
    let ghost kept = if pv.last().len() == 0 { pv.drop_last() } else { pv };
    assert(kept.len() == n);
    let ghost lines = text_lines(contents@);
    let mut table: Vec<(String, String)> = Vec::new();
    let mut i: usize = 0;
    while i < n
        invariant
            pv == string_views(parts@),
            pv == split_on(contents@, '\n'),
            kept == (if pv.last().len() == 0 { pv.drop_last() } else { pv }),
            lines == text_lines(contents@),
            n == kept.len(),
            n <= parts.len(),
            i <= n,
            forall|j: int| 0 <= j < i ==> (#[trigger] lines[j]).contains(':'),
            table@.len() == i,
            forall|j: int|
                0 <= j < i ==> (table@[j].0@, table@[j].1@) == (split_on(lines[j], ':')[0], lines[j]),
        decreases n - i,
    {
        assert(kept[i as int] == pv[i as int]);
        let line = strip_line(&parts[i]);
        assert(line@ == lines[i as int]);
        let fields = split_chars(line.as_str(), ':');
        proof {
            crate::topic::lemma_split_on_nonempty(line@, ':');
        }
        if fields.len() < 2 {
            proof {
                lemma_no_separator(line@, ':');
            }
            return Err(String::from_str("invalid entry"));
        }
        proof {
            lemma_separator(line@, ':');
        }
        let user = fields[0].clone();
        table.push((user, line));
        i = i + 1;
    }
    assert(table@.map_values(|e: (String, String)| (e.0@, e.1@)) =~= Seq::new(
        lines.len(),
        |j: int| (split_on(lines[j], ':')[0], lines[j]),
    ));
    Ok(table)
}

/// A text splits into more than one part exactly where it holds the separator.
proof fn lemma_separator(s: Seq<char>, sep: char)
    requires
        split_on(s, sep).len() >= 2,
    ensures
        s.contains(sep),
    decreases s.len(),
{
    if s.len() > 0 {
        if s.last() == sep {
            assert(s[s.len() - 1] == sep);
        } else {
            crate::topic::lemma_split_on_nonempty(s.drop_last(), sep);
            assert(split_on(s, sep).len() == split_on(s.drop_last(), sep).len());
            lemma_separator(s.drop_last(), sep);
            let j = choose|j: int| 0 <= j < s.drop_last().len() && s.drop_last()[j] == sep;
            assert(s[j] == sep);
        }
    }
}

proof fn lemma_no_separator(s: Seq<char>, sep: char)
    requires
        split_on(s, sep).len() < 2,
    ensures
        !s.contains(sep),
    decreases s.len(),
{
    if s.len() > 0 {
        crate::topic::lemma_split_on_nonempty(s.drop_last(), sep);
        lemma_no_separator(s.drop_last(), sep);
        assert forall|j: int| 0 <= j < s.len() implies s[j] != sep by {
            if j < s.len() - 1 {
                assert(s.drop_last()[j] == s[j]);
            }
        }
    }
}

pub open spec fn table_view(t: Seq<(String, String)>) -> Seq<(Seq<char>, Seq<char>)> {
    t.map_values(|e: (String, String)| (e.0@, e.1@))
}

/// The password file line of `user`: the last line naming it, as a later
/// line replaces an earlier one.
pub open spec fn entry_of(t: Seq<(Seq<char>, Seq<char>)>, user: Seq<char>) -> Option<Seq<char>>
    decreases t.len(),
{
    if t.len() == 0 {
        None
    } else if t.last().0 == user {
        Some(t.last().1)
    } else {
        entry_of(t.drop_last(), user)
    }
}

/// Users and their password file lines.
pub struct BasicAuthenticationManager {
    path: String,
    data: Vec<(String, String)>,
}

impl BasicAuthenticationManager {
    pub closed spec fn table(&self) -> Seq<(Seq<char>, Seq<char>)> {
        table_view(self.data@)
    }

    pub closed spec fn file(&self) -> Seq<char> {
        self.path@
    }

    /// A manager for the password file at `path`, whose text is `contents`.
    pub fn new(path: String, contents: &str) -> (r: Result<BasicAuthenticationManager, String>)
        ensures
            r is Ok <==> spec_load_htpasswd(contents@) is Some,
            r matches Ok(m) ==> Some(m.table()) == spec_load_htpasswd(contents@) && m.file() == path@,
    {
        match load_htpasswd(contents) {
            Ok(data) => Ok(BasicAuthenticationManager { path, data }),
            Err(e) => Err(e),
        }
    }

    /// Where the password file is.
    pub fn path(&self) -> (r: &String)
        ensures
            r@ == self.file(),
    {
        &self.path
    }

    /// Replaces the table with that of the file's new text; keeps it where
    /// the text does not parse.
    pub fn reset(&mut self, contents: &str) -> (r: Result<(), String>)
        ensures
            r is Ok <==> spec_load_htpasswd(contents@) is Some,
            r is Ok ==> Some(final(self).table()) == spec_load_htpasswd(contents@),
            r is Err ==> *final(self) == *old(self),
            final(self).file() == old(self).file(),
    {
        match load_htpasswd(contents) {
            Ok(data) => {
                self.data = data;
                Ok(())
            },
            Err(e) => Err(e),
        }
    }

    /// The password file line of `username`.
    pub fn entry(&self, username: &str) -> (r: Option<String>)
        ensures
            match entry_of(self.table(), username@) {
                Some(e) => r matches Some(x) && x@ == e,
                None => r is None,
            },
    {
        let ghost tv = table_view(self.data@);
        let mut i = self.data.len();
        assert(tv.take(i as int) =~= tv);
        while i > 0
            invariant
                tv == table_view(self.data@),
                i <= self.data.len(),
                entry_of(tv, username@) == entry_of(tv.take(i as int), username@),
            decreases i,
        {
            assert(tv.take(i as int).drop_last() =~= tv.take(i - 1));
            assert(tv.take(i as int).last() == tv[i - 1]);
            if str_equal(self.data[i - 1].0.as_str(), username) {
                return Some(self.data[i - 1].1.clone());
            }
            i = i - 1;
        }
        None
    }
}

/// The LDAP server that checks passwords.
pub struct LdapAuthenticationManager {
    pub url: String,
}

impl LdapAuthenticationManager {
    pub fn new(url: String) -> (r: LdapAuthenticationManager)
        ensures
            r.url@ == url@,
    {
        LdapAuthenticationManager { url }
    }
}

/// What is left to do to authenticate a client.
pub enum AuthenticationStep {
    /// The client is this user.
    Authenticated(String),
    /// The client is `user` if `password` verifies against the password
    /// file line `entry`.
    VerifyPassword { entry: String, user: String, password: String },
    /// The client is `user` if a simple bind with `password` succeeds at `url`.
    LdapBind { url: String, user: String, password: String },
}

/// The authentication methods configured.
pub struct AuthenticationManager {
    pub basic: Option<BasicAuthenticationManager>,
    pub ldap: Option<LdapAuthenticationManager>,
}

impl AuthenticationManager {
    /// The manager for `option`; `password_file` is the text of the password
    /// file where `option` names one, and is not read otherwise.
    pub fn new(option: &AuthenticationOption, password_file: &str) -> (r: Result<AuthenticationManager, String>)
        ensures
            match option {
                AuthenticationOption::Anonymous => r matches Ok(m) && m.basic is None && m.ldap is None,
                AuthenticationOption::Basic(path) => (r is Ok <==> spec_load_htpasswd(password_file@) is Some)
                    && (r matches Ok(m) ==> (m.ldap is None && (m.basic matches Some(b)
                        && Some(b.table()) == spec_load_htpasswd(password_file@) && b.file() == path@))),
                AuthenticationOption::Ldap(url) => r matches Ok(m) && m.basic is None
                    && (m.ldap matches Some(l) && l.url@ == url@),
            },
    {
        match option {
            AuthenticationOption::Anonymous => Ok(AuthenticationManager { basic: None, ldap: None }),
            AuthenticationOption::Basic(path) => match BasicAuthenticationManager::new(path.clone(), password_file) {
                Ok(b) => Ok(AuthenticationManager { basic: Some(b), ldap: None }),
                Err(e) => Err(e),
            },
            AuthenticationOption::Ldap(url) => Ok(
                AuthenticationManager { basic: None, ldap: Some(LdapAuthenticationManager::new(url.clone())) },
            ),
        }
    }

    /// Rereads the password file, where there is one.
    pub fn reset(&mut self, password_file: &str) -> (r: Result<(), String>)
        ensures
            final(self).ldap == old(self).ldap,
            r is Err ==> final(self).basic == old(self).basic,
            match old(self).basic {
                Some(b) => r is Ok <==> spec_load_htpasswd(password_file@) is Some,
                None => r is Ok && final(self).basic is None,
            },
            r is Ok ==> match final(self).basic {
                Some(b) => Some(b.table()) == spec_load_htpasswd(password_file@),
                None => true,
            },
    {
        match self.basic {
            Some(ref mut b) => b.reset(password_file),
            None => Ok(()),
        }
    }

    /// Decides on a client's first message: it must be an authentication
    /// request. Method `none` makes the client `nobody`; `basic` and `ldap`
    /// decode the credentials and leave the password check to be made.
    /// Fails on any other message or method, on a method not configured, on
    /// credentials that do not decode and on a user the password file lacks.
    pub fn authenticate(&self, message: &Message) -> (r: Result<AuthenticationStep, String>)
        ensures
            match message@ {
                MessageView::AuthenticationRequest { method, credentials } => {
                    if method == "none"@ {
                        r matches Ok(AuthenticationStep::Authenticated(u)) && u@ == "nobody"@
                    } else if method == "basic"@ {
                        match (self.basic, credentials_of(credentials)) {
                            (Some(b), Some((user, password))) => match entry_of(b.table(), user) {
                                Some(e) => r matches Ok(AuthenticationStep::VerifyPassword { entry, user: u, password: p })
                                    && entry@ == e && u@ == user && p@ == password,
                                None => r is Err,
                            },
                            _ => r is Err,
                        }
                    } else if method == "ldap"@ {
                        match (self.ldap, credentials_of(credentials)) {
                            (Some(l), Some((user, password))) => r matches Ok(AuthenticationStep::LdapBind { url, user: u, password: p })
                                && url@ == l.url@ && u@ == user && p@ == password,
                            _ => r is Err,
                        }
                    } else {
                        r is Err
                    }
                },
                _ => r is Err,
            },
    {
        let (method, credentials) = match message {
            Message::AuthenticationRequest { method, credentials } => (method, credentials),
            _ => return Err(String::from_str("expected authentication request")),
        };
        if str_equal(method.as_str(), "none") {
            return Ok(AuthenticationStep::Authenticated(String::from_str("nobody")));
        }
        if str_equal(method.as_str(), "basic") {
            let basic = match &self.basic {
                Some(b) => b,
                None => return Err(String::from_str("no basic authentication")),
            };
            let (user, password) = match decode_credential_bytes(credentials.as_slice()) {
                Some(c) => c,
                None => return Err(String::from_str("invalid credentials")),
            };
            return match basic.entry(user.as_str()) {
                Some(entry) => Ok(AuthenticationStep::VerifyPassword { entry, user, password }),
                None => Err(String::from_str("unknown user")),
            };
        }
        if str_equal(method.as_str(), "ldap") {
            let ldap = match &self.ldap {
                Some(l) => l,
                None => return Err(String::from_str("no ldap authentication")),
            };
            let (user, password) = match decode_credential_bytes(credentials.as_slice()) {
                Some(c) => c,
                None => return Err(String::from_str("invalid credentials")),
            };
            return Ok(AuthenticationStep::LdapBind { url: ldap.url.clone(), user, password });
        }
        Err(String::from_str("invalid authentication method"))
    }
}

/// The outcome of a password check made outside: the user where it passed.
pub fn password_verdict(user: String, verified: bool) -> (r: Result<String, String>)
    ensures
        verified ==> (r matches Ok(u) && u@ == user@),
        !verified ==> r is Err,
{
    if verified {
        Ok(user)
    } else {
        Err(String::from_str("invalid password"))
    }
}

} // verus!