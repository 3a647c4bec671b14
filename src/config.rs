//! The configured pairs of files to keep in step.

use vstd::prelude::*;

verus! {

/// A source file whose text the destination file is made to hold.
#[derive(Clone, Debug, PartialEq, Eq)]
pub struct ConfigPair {
    pub source: String,
    pub destination: String,
}

/// The configuration: one optional pair for each known program.
#[derive(Clone, Debug, PartialEq, Eq)]
pub struct Config {
    pub win_terminal: Option<ConfigPair>,
    pub nu_config: Option<ConfigPair>,
    pub nu_env: Option<ConfigPair>,
    pub helix_config: Option<ConfigPair>,
    pub helix_languages: Option<ConfigPair>,
    pub ssh_config: Option<ConfigPair>,
}

/// The pair held by an optional entry, if any.
pub open spec fn present(o: Option<ConfigPair>) -> Seq<ConfigPair> {
    match o {
        Some(p) => seq![p],
        None => seq![],
    }
}

fn push_present(o: Option<ConfigPair>, out: &mut Vec<ConfigPair>)
    ensures
        final(out)@ == old(out)@ + present(o),
{
    match o {
        Some(p) => {
            out.push(p);
            assert(final(out)@ =~= old(out)@ + present(o));
        },
        None => {
            assert(out@ =~= out@ + present(o));
        },
    }
}

impl Config {
    /// A configuration with no pairs.
    pub fn empty() -> (c: Config)
        ensures
            c.pairs_spec() == Seq::<ConfigPair>::empty(),
    {
        let c = Config {
            win_terminal: None,
            nu_config: None,
            nu_env: None,
            helix_config: None,
            helix_languages: None,
            ssh_config: None,
        };
        assert(c.pairs_spec() =~= Seq::<ConfigPair>::empty());
        c
    }

    /// The configured pairs, in the order of the fields.
    pub open spec fn pairs_spec(self) -> Seq<ConfigPair> {
        present(self.win_terminal) + present(self.nu_config) + present(self.nu_env)
            + present(self.helix_config) + present(self.helix_languages) + present(self.ssh_config)
    }

    /// The configured pairs, in the order of the fields; absent entries are skipped.
    pub fn pairs(self) -> (r: Vec<ConfigPair>)
        ensures
            r@ == self.pairs_spec(),
    {
        let ghost c = self;
        let mut out: Vec<ConfigPair> = Vec::new();
        push_present(self.win_terminal, &mut out);
        push_present(self.nu_config, &mut out);
        push_present(self.nu_env, &mut out);
        push_present(self.helix_config, &mut out);
        push_present(self.helix_languages, &mut out);
        push_present(self.ssh_config, &mut out);
        assert(out@ =~= c.pairs_spec());
        out
    }
}

/// The directory that holds the configuration file: the one given by the
/// user, else the home directory; `None` when neither is known.
pub fn config_dir(user_dir: Option<String>, home: Option<String>) -> (r: Option<String>)
    ensures
        r == (match user_dir {
            Some(d) => Some(d),
            None => home,
        }),
{
    match user_dir {
        Some(d) => Some(d),
        None => home,
    }
}

} // verus!
