//! Authorization of principals against a policy.

use vstd::prelude::*;
use crate::error::XcosmError;

verus! {

/// The requestor is not authorized; nothing of the policy is disclosed.
#[derive(Debug, Clone, PartialEq, Eq)]
pub enum AuthError {
    Unauthorized {},
}

/// Who is authorized.
#[derive(Debug, Clone, PartialEq, Eq)]
pub enum Authorized {
    /// A single principal.
    One(String),
    /// Several principals.
    Many(Vec<String>),
    /// Nobody.
    Nobody,
    /// Everybody.
    Any,
}

/// The list holds the principal.
pub open spec fn lists(v: Seq<String>, p: Seq<char>) -> bool {
    exists|i: int| 0 <= i < v.len() && (#[trigger] v[i])@ == p
}

/// The policy authorizes the principal.
pub open spec fn permits(a: Authorized, p: Seq<char>) -> bool {
    match a {
        Authorized::One(x) => x@ == p,
        Authorized::Many(v) => lists(v@, p),
        Authorized::Nobody => false,
        Authorized::Any => true,
    }
}

/// How many of the requestors the policy authorizes.
pub open spec fn permitted_count(a: Authorized, rs: Seq<String>) -> nat
    decreases rs.len(),
{
    if rs.len() == 0 {
        0
    } else {
        permitted_count(a, rs.drop_last()) + (if permits(a, rs.last()@) { 1nat } else { 0nat })
    }
}

/// Some requestor is authorized; under `Any`, even with no requestor.
pub open spec fn permits_any(a: Authorized, rs: Seq<String>) -> bool {
    a is Any || exists|i: int| 0 <= i < rs.len() && permits(a, (#[trigger] rs[i])@)
}

/// Every requestor is authorized; under `Nobody`, never.
pub open spec fn permits_all(a: Authorized, rs: Seq<String>) -> bool {
    !(a is Nobody) && forall|i: int| 0 <= i < rs.len() ==> permits(a, (#[trigger] rs[i])@)
}

/// At least `min` requestors are authorized; under `Any` always, under `Nobody` never.
pub open spec fn permits_at_least(a: Authorized, rs: Seq<String>, min: u32) -> bool {
    match a {
        Authorized::Nobody => false,
        Authorized::Any => true,
        _ => permitted_count(a, rs) >= min,
    }
}

/// Whether a list holds a principal.
fn list_contains(v: &Vec<String>, p: &String) -> (r: bool)
    ensures
        r == lists(v@, p@),
{
    let mut i: usize = 0;
    while i < v.len()
        invariant
            i <= v.len(),
            forall|k: int| 0 <= k < i ==> (#[trigger] v@[k])@ != p@,
        decreases v.len() - i,
    {
        if v[i] == *p {
            return true;
        }
        i = i + 1;
    }
    false
}

impl Authorized {
    /// The policy that authorizes exactly the principals of a group.
    pub fn new(group: &[String]) -> (r: Authorized)
        ensures
            group@.len() == 0 ==> r is Nobody,
            group@.len() == 1 ==> r == Authorized::One(group@[0]),
            group@.len() > 1 ==> (r matches Authorized::Many(v) && v@ == group@),
    {
        if group.len() == 0 {
            Authorized::Nobody
        } else if group.len() == 1 {
            Authorized::One(group[0].clone())
        } else {
            let mut v: Vec<String> = Vec::new();
            let mut i: usize = 0;
            while i < group.len()
                invariant
                    i <= group.len(),
                    v@ == group@.take(i as int),
                decreases group.len() - i,
            {
                v.push(group[i].clone());
                i = i + 1;
                assert(v@ =~= group@.take(i as int));
            }
            assert(v@ =~= group@);
            Authorized::Many(v)
        }
    }

    /// Whether the policy authorizes a principal.
    pub fn permits(&self, requestor: &String) -> (r: bool)
        ensures
            r == permits(*self, requestor@),
    {
        match self {
            Authorized::One(a) => *a == *requestor,
            Authorized::Many(v) => list_contains(v, requestor),
            Authorized::Nobody => false,
            Authorized::Any => true,
        }
    }

    /// Succeeds where the policy authorizes the requestor.
    pub fn authorize(&self, requestor: &String) -> (r: Result<(), XcosmError>)
        ensures
            r is Ok <==> permits(*self, requestor@),
            r is Err ==> r == Err::<(), XcosmError>(XcosmError::Auth(AuthError::Unauthorized {})),
    {
        if self.permits(requestor) {
            Ok(())
        } else {
            Err(XcosmError::Auth(AuthError::Unauthorized {}))
        }
    }

    /// Succeeds where the policy authorizes at least one of the requestors.
    pub fn authorize_any(&self, requestors: &Vec<String>) -> (r: Result<(), XcosmError>)
        ensures
            r is Ok <==> permits_any(*self, requestors@),
            r is Err ==> r == Err::<(), XcosmError>(XcosmError::Auth(AuthError::Unauthorized {})),
    {
        if let Authorized::Any = self {
            return Ok(());
        }
        let mut i: usize = 0;
        while i < requestors.len()
            invariant
                i <= requestors.len(),
                !(*self is Any),
                forall|k: int| 0 <= k < i ==> !permits(*self, (#[trigger] requestors@[k])@),
            decreases requestors.len() - i,
        {
            if self.permits(&requestors[i]) {
                return Ok(());
            }
            i = i + 1;
        }
        Err(XcosmError::Auth(AuthError::Unauthorized {}))
    }

    /// Succeeds where the policy authorizes every one of the requestors.
    pub fn authorize_all(&self, requestors: &Vec<String>) -> (r: Result<(), XcosmError>)
        ensures
            r is Ok <==> permits_all(*self, requestors@),
            r is Err ==> r == Err::<(), XcosmError>(XcosmError::Auth(AuthError::Unauthorized {})),
    {
        if let Authorized::Nobody = self {
            return Err(XcosmError::Auth(AuthError::Unauthorized {}));
        }
        let mut i: usize = 0;
        while i < requestors.len()
            invariant
                i <= requestors.len(),
                !(*self is Nobody),
                forall|k: int| 0 <= k < i ==> permits(*self, (#[trigger] requestors@[k])@),
            decreases requestors.len() - i,
        {
            if !self.permits(&requestors[i]) {
                return Err(XcosmError::Auth(AuthError::Unauthorized {}));
            }
            i = i + 1;
        }
        Ok(())
    }

    /// Succeeds where the policy authorizes at least `min` of the requestors.
    pub fn authorize_at_least(&self, requestors: &Vec<String>, min: u32) -> (r: Result<(), XcosmError>)
        ensures
            r is Ok <==> permits_at_least(*self, requestors@, min),
            r is Err ==> r == Err::<(), XcosmError>(XcosmError::Auth(AuthError::Unauthorized {})),
    {
        match self {
            Authorized::Nobody => return Err(XcosmError::Auth(AuthError::Unauthorized {})),
            Authorized::Any => return Ok(()),
            _ => {},
        }
        let mut count: u64 = 0;
        let mut i: usize = 0;
        assert(requestors@.take(0) =~= Seq::<String>::empty());
        while i < requestors.len()
            invariant
                i <= requestors.len(),
                count == permitted_count(*self, requestors@.take(i as int)),
                count <= i,
            decreases requestors.len() - i,
        {
            proof {
                assert(requestors@.take(i + 1).drop_last() =~= requestors@.take(i as int));
            }
            if self.permits(&requestors[i]) {
                count = count + 1;
            }
            i = i + 1;
        }
        assert(requestors@.take(i as int) =~= requestors@);
        if count >= min as u64 {
            Ok(())
        } else {
            Err(XcosmError::Auth(AuthError::Unauthorized {}))
        }
    }

    /// The principals the policy names; none for `Nobody` and `Any`.
    pub fn into_vec(self) -> (r: Vec<String>)
        ensures
            self matches Authorized::One(a) ==> r@ == seq![a],
            self matches Authorized::Many(v) ==> r@ == v@,
            (self is Nobody || self is Any) ==> r@.len() == 0,
    {
        match self {
            Authorized::One(a) => {
                let mut v: Vec<String> = Vec::new();
                v.push(a);
                v
            },
            Authorized::Many(v) => v,
            Authorized::Nobody => Vec::new(),
            Authorized::Any => Vec::new(),
        }
    }
}

impl Default for Authorized {
    /// Nobody is authorized unless configured otherwise.
    fn default() -> (r: Authorized)
        ensures
            r is Nobody,
    {
        Authorized::Nobody
    }
}

} // verus!
