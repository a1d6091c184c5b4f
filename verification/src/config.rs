//! The configuration that a run works with.

use crate::text;
use vstd::prelude::*;

verus! {

/// The name of the virtual personal activity view.
pub const FOLLOWING_VIEW: &'static str = "Following";

/// The mailbox that backs the virtual view.
pub const IMAP_INBOX_MAILBOX: &'static str = "INBOX";

/// How the connection to a mail server is secured.
#[derive(Debug, Clone, Copy, PartialEq, Eq, Structural)]
pub enum ImapEncryption {
    Tls,
    StartTls,
    Plain,
}

/// Access to a mail server.
#[derive(Debug)]
pub struct ImapConfig {
    pub email: Option<String>,
    pub user: Option<String>,
    pub pass: Option<String>,
    pub server: Option<String>,
    pub server_port: Option<u16>,
    pub encryption: Option<ImapEncryption>,
    pub proxy: Option<String>,
    pub sent_mailbox: Option<String>,
}

/// Everything that a run is configured with.
#[derive(Debug)]
pub struct RuntimeConfig {
    pub config_path: String,
    pub data_dir: String,
    pub database_path: String,
    pub raw_mail_dir: String,
    pub patch_dir: String,
    pub log_dir: String,
    pub b4_path: Option<String>,
    pub log_filter: String,
    pub source_mailbox: String,
    pub imap: ImapConfig,
    pub git_user_email: Option<String>,
    pub lore_base_url: String,
    pub startup_sync: bool,
    pub allow_preview_resize: bool,
    pub kernel_trees: Vec<String>,
}

impl ImapConfig {
    /// The settings without which no connection can be made, where they are
    /// not given. It is an assumption that these five are needed and no others,
    /// and that they are listed in this order.
    pub open spec fn missing(self) -> Seq<Seq<char>> {
        let none = Seq::<Seq<char>>::empty();
        let user = if self.user is None {
            none.push("imap.user"@)
        } else {
            none
        };
        let pass = if self.pass is None {
            user.push("imap.pass"@)
        } else {
            user
        };
        let server = if self.server is None {
            pass.push("imap.server"@)
        } else {
            pass
        };
        let port = if self.server_port is None {
            server.push("imap.serverport"@)
        } else {
            server
        };
        if self.encryption is None {
            port.push("imap.encryption"@)
        } else {
            port
        }
    }

    /// Whether a connection can be made. It is an assumption that a setting that
    /// is given is good enough.
    pub open spec fn complete(self) -> bool {
        self.user is Some && self.pass is Some && self.server is Some && self.server_port is Some
            && self.encryption is Some
    }

    /// Decides whether a connection can be made.
    pub fn is_complete(&self) -> (r: bool)
        ensures
            r == self.complete(),
            r == (self.missing().len() == 0),
    {
        self.user.is_some() && self.pass.is_some() && self.server.is_some()
            && self.server_port.is_some() && self.encryption.is_some()
    }

    /// Lists the settings that a connection still needs.
    pub fn missing_required_fields(&self) -> (r: Vec<String>)
        ensures
            text::texts(r@) == self.missing(),
    {
        let mut out: Vec<String> = Vec::new();
        assert(text::texts(out@) == Seq::<Seq<char>>::empty());
        if self.user.is_none() {
            add_name(&mut out, "imap.user");
        }
        if self.pass.is_none() {
            add_name(&mut out, "imap.pass");
        }
        if self.server.is_none() {
            add_name(&mut out, "imap.server");
        }
        if self.server_port.is_none() {
            add_name(&mut out, "imap.serverport");
        }
        if self.encryption.is_none() {
            add_name(&mut out, "imap.encryption");
        }
        out
    }
}

/// Appends a name.
fn add_name(out: &mut Vec<String>, name: &str)
    ensures
        text::texts(final(out)@) == text::texts(old(out)@).push(name@),
{
    let ghost before = out@;
    let name = name.to_string();
    out.push(name);
    assert(text::texts(out@) == text::texts(before).push(name@));
}

impl RuntimeConfig {
    /// The address that the user writes from: the one of the mail account, or
    /// else the one of their commits. It is an assumption that the account comes
    /// first.
    pub open spec fn self_email(self) -> Option<Seq<char>> {
        match self.imap.email {
            Some(email) => Some(email@),
            None => text::opt_text(self.git_user_email),
        }
    }

    /// Finds the address that the user writes from.
    pub fn resolve_self_email(&self) -> (r: Option<String>)
        ensures
            text::opt_text(r) == self.self_email(),
    {
        match &self.imap.email {
            Some(email) => Some(email.clone()),
            None => text::copy_opt(&self.git_user_email),
        }
    }
}

/// What is missing: each of the five settings that is not given, in the order of
/// user, password, server, port and encryption, and nothing else.
pub proof fn law_missing_settings_are_those_not_given(imap: ImapConfig)
    ensures
        imap.missing().contains("imap.user"@) <==> imap.user is None,
        imap.missing().contains("imap.pass"@) <==> imap.pass is None,
        imap.missing().contains("imap.server"@) <==> imap.server is None,
        imap.missing().contains("imap.serverport"@) <==> imap.server_port is None,
        imap.missing().contains("imap.encryption"@) <==> imap.encryption is None,
        imap.missing().len() == 0 <==> imap.user is Some && imap.pass is Some && imap.server is Some
            && imap.server_port is Some && imap.encryption is Some,
        imap.complete() <==> imap.missing().len() == 0,
        imap.user is None ==> imap.missing()[0] == "imap.user"@,
        imap.encryption is None ==> imap.missing().last() == "imap.encryption"@,
{
    reveal_strlit("imap.user");
    reveal_strlit("imap.pass");
    reveal_strlit("imap.server");
    reveal_strlit("imap.serverport");
    reveal_strlit("imap.encryption");
    assert("imap.user"@[5] == 'u');
    assert("imap.pass"@[5] == 'p');
    assert("imap.server"@[5] == 's');
    assert("imap.server"@.len() != "imap.serverport"@.len());
    assert("imap.serverport"@[5] == 's');
    assert("imap.encryption"@[5] == 'e');
    let none = Seq::<Seq<char>>::empty();
    let a = if imap.user is None {
        none.push("imap.user"@)
    } else {
        none
    };
    lemma_pushed(none, a, imap.user is None, "imap.user"@);
    let b = if imap.pass is None {
        a.push("imap.pass"@)
    } else {
        a
    };
    lemma_pushed(a, b, imap.pass is None, "imap.pass"@);
    let c = if imap.server is None {
        b.push("imap.server"@)
    } else {
        b
    };
    lemma_pushed(b, c, imap.server is None, "imap.server"@);
    let d = if imap.server_port is None {
        c.push("imap.serverport"@)
    } else {
        c
    };
    lemma_pushed(c, d, imap.server_port is None, "imap.serverport"@);
    lemma_pushed(d, imap.missing(), imap.encryption is None, "imap.encryption"@);
}

/// What a list holds after a name was added or was not.
proof fn lemma_pushed(
    names: Seq<Seq<char>>,
    more: Seq<Seq<char>>,
    missing: bool,
    name: Seq<char>,
)
    requires
        missing ==> more == names.push(name),
        !missing ==> more == names,
    ensures
        forall|x: Seq<char>| #[trigger]
            more.contains(x) <==> names.contains(x) || (missing && x == name),
{
    if missing {
        assert forall|x: Seq<char>| #[trigger] more.contains(x) <==> names.contains(x) || x == name by {
            if names.contains(x) {
                let i = choose|i: int| 0 <= i < names.len() && names[i] == x;
                assert(more[i] == x);
            }
            if x == name {
                assert(more[names.len() as int] == x);
            }
            if more.contains(x) {
                let i = choose|i: int| 0 <= i < more.len() && more[i] == x;
                if i < names.len() {
                    assert(names[i] == x);
                }
            }
        }
    }
}

/// The user writes from the address of the mail account, where there is one, and
/// else from that of their commits.
pub proof fn law_the_account_comes_first(config: RuntimeConfig)
    ensures
        config.imap.email matches Some(email) ==> config.self_email() == Some(email@),
        config.imap.email is None && config.git_user_email is Some ==> config.self_email() == Some(
            config.git_user_email->0@,
        ),
        config.imap.email is None && config.git_user_email is None ==> config.self_email() is None,
{
}

} // verus!
