//! The host catalogue: the fleet and the order of scrolls to apply.

use vstd::prelude::*;

verus! {

/// One remote host: its address, the key material to authenticate with,
/// and the user to log in as (`"root"` when none is given).
#[derive(Debug, Clone, PartialEq)]
pub struct Host {
    pub host: String,
    pub pubkey_path: String,
    pub privkey_path: String,
    pub ssh_passphrase: Option<String>,
    pub user: Option<String>,
}

/// The inventory: the ordered list of scroll names and the hosts to visit.
#[derive(Debug, Clone, PartialEq)]
pub struct Hosts {
    pub scrolls: Vec<String>,
    pub hosts: Vec<Host>,
}

impl Host {
    /// The user to authenticate as: the configured one, or `"root"`.
    pub fn login_user(&self) -> (r: String)
        ensures
            match self.user {
                Some(u) => r@ == u@,
                None => r@ == "root"@,
            },
    {
        match &self.user {
            Some(u) => u.clone(),
            None => "root".to_owned(),
        }
    }
}

/// Where the inventory lives under the project root: `<root>/hosts.yml`.
pub fn hosts_file(root: &str) -> (r: String)
    ensures
        r@ == root@ + "/hosts.yml"@,
{
    let mut p = root.to_owned();
    p.append("/hosts.yml");
    p
}

/// The process exit code of a whole run: 0 exactly when no host ended
/// fatally, 1 otherwise.
pub fn run_exit_code(fatal: &Vec<bool>) -> (r: i32)
    ensures
        r == 0 <==> (forall|i: int| 0 <= i < fatal@.len() ==> !fatal@[i]),
        r == 0 || r == 1,
{
    let mut i: usize = 0;
    while i < fatal.len()
        invariant
            0 <= i <= fatal@.len(),
            forall|k: int| 0 <= k < i ==> !fatal@[k],
        decreases fatal@.len() - i,
    {
        if fatal[i] {
            return 1;
        }
        i += 1;
    }
    0
}

} // verus!
