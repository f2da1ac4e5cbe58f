//! The analytics backend's authorization model: what an API key may do, and
//! whether it grants enough access for usage aggregation to be attempted.

use vstd::prelude::*;
use crate::paths::str_eq;

verus! {

/// A handle on the analytics backend: the API key that authenticates every
/// request.
#[derive(Clone)]
pub struct HoneyComb {
    pub api_key: String,
}

/// A named thing of the backend with its URL slug.
pub struct NameAndSlug {
    pub name: String,
    pub slug: String,
}

/// What the backend reports about an API key: the access each capability
/// name is granted, and which environment and team the key belongs to.
pub struct Authorizations {
    pub api_key_access: Vec<(String, bool)>,
    pub environment: NameAndSlug,
    pub team: NameAndSlug,
}

/// Whether the access table grants the capability named `k`: the first
/// entry of that name decides, and an absent name grants nothing.
pub open spec fn access_granted(m: Seq<(String, bool)>, k: Seq<char>) -> bool
    decreases m.len(),
{
    if m.len() == 0 {
        false
    } else if m[0].0@ == k {
        m[0].1
    } else {
        access_granted(m.subrange(1, m.len() as int), k)
    }
}

/// A scan that saw no entry of the name so far: the answer lies at the scan
/// point or nowhere.
proof fn lemma_access_scan(m: Seq<(String, bool)>, k: Seq<char>, p: int)
    requires
        0 <= p <= m.len(),
        forall|j: int| 0 <= j < p ==> (#[trigger] m[j].0)@ != k,
    ensures
        p < m.len() && m[p].0@ == k ==> access_granted(m, k) == m[p].1,
        p == m.len() ==> !access_granted(m, k),
    decreases p,
{
    if p > 0 {
        let m1 = m.subrange(1, m.len() as int);
        assert forall|j: int| 0 <= j < p - 1 implies (#[trigger] m1[j].0)@ != k by {
            assert(m1[j] == m[j + 1]);
        }
        lemma_access_scan(m1, k, p - 1);
        if p < m.len() && m[p].0@ == k {
            assert(m1[p - 1] == m[p]);
        }
    }
}

/// One line per access entry: the capability name, a colon, the grant.
pub open spec fn spec_access_lines(m: Seq<(String, bool)>) -> Seq<char>
    decreases m.len(),
{
    if m.len() == 0 {
        Seq::empty()
    } else {
        spec_access_lines(m.drop_last()) + m.last().0@ + ": "@ + crate::text::spec_bool_text(
            m.last().1,
        ) + "\n"@
    }
}

/// The display text of an authorization report: the access table line by
/// line, then the environment and team names.
pub open spec fn spec_auth_text(a: Authorizations) -> Seq<char> {
    "api_key_access:\n"@ + spec_access_lines(a.api_key_access@) + "\nenvironment: "@
        + a.environment.name@ + "\nteam: "@ + a.team.name@
}

impl Authorizations {
    /// The display text of this report.
    pub fn describe(&self) -> (r: String)
        ensures
            r@ == spec_auth_text(*self),
    {
        proof {
            reveal_strlit(": ");
            reveal_strlit("\n");
        }
        let ghost m = self.api_key_access@;
        let mut lines = String::new();
        let n = self.api_key_access.len();
        let mut i: usize = 0;
        while i < n
            invariant
                0 <= i <= n,
                n == self.api_key_access@.len(),
                m == self.api_key_access@,
                lines@ == spec_access_lines(m.subrange(0, i as int)),
            decreases n - i,
        {
            proof {
                reveal_strlit(": ");
                reveal_strlit("\n");
            }
            lines.append(self.api_key_access[i].0.as_str());
            lines.append(": ");
            lines.append(crate::text::bool_to_string(self.api_key_access[i].1).as_str());
            lines.append("\n");
            proof {
                let pre = m.subrange(0, i + 1 as int);
                assert(pre.drop_last() =~= m.subrange(0, i as int));
                assert(pre.last() == m[i as int]);
            }
            i += 1;
        }
        let mut r = "api_key_access:\n".to_owned();
        r.append(lines.as_str());
        r.append("\nenvironment: ");
        r.append(self.environment.name.as_str());
        r.append("\nteam: ");
        r.append(self.team.name.as_str());
        proof {
            assert(m.subrange(0, m.len() as int) =~= m);
        }
        r
    }

    /// Whether the key is granted the capability named `k`.
    fn granted(&self, k: &str) -> (r: bool)
        ensures
            r == access_granted(self.api_key_access@, k@),
    {
        let n = self.api_key_access.len();
        let mut j: usize = 0;
        while j < n
            invariant
                0 <= j <= n,
                n == self.api_key_access@.len(),
                forall|i: int| 0 <= i < j ==> (#[trigger] self.api_key_access@[i].0)@ != k@,
            decreases n - j,
        {
            if str_eq(self.api_key_access[j].0.as_str(), k) {
                proof {
                    lemma_access_scan(self.api_key_access@, k@, j as int);
                }
                return self.api_key_access[j].1;
            }
            j += 1;
        }
        proof {
            lemma_access_scan(self.api_key_access@, k@, n as int);
        }
        false
    }

    /// Whether the key is granted every one of the named capabilities; an
    /// empty list asks for nothing and is always granted.
    pub fn has_required_access(&self, access_types: &Vec<String>) -> (r: bool)
        ensures
            r == forall|i: int|
                0 <= i < access_types@.len() ==> access_granted(
                    self.api_key_access@,
                    (#[trigger] access_types@[i])@,
                ),
    {
        let n = access_types.len();
        let mut i: usize = 0;
        while i < n
            invariant
                0 <= i <= n,
                n == access_types@.len(),
                forall|j: int|
                    0 <= j < i ==> access_granted(
                        self.api_key_access@,
                        (#[trigger] access_types@[j])@,
                    ),
            decreases n - i,
        {
            if !self.granted(access_types[i].as_str()) {
                return false;
            }
            i += 1;
        }
        true
    }
}

} // verus!
