//! Artifact names and the type that a name gives its artifact.

use vstd::prelude::*;
use crate::error::{ErrorKind, LoadError, LoadResult};
use crate::text::{chars_of, string_of};

verus! {

/// The category of an artifact, read off the first segment of its name.
#[derive(Clone, Copy, PartialEq, Eq, Debug, Structural)]
pub enum ArtType {
    REQ,
    SPC,
    TST,
    Other,
}

/// The upper-case form of an ASCII letter; any other character is unchanged.
pub open spec fn upper(c: char) -> char {
    if 'a' <= c && c <= 'z' {
        ((c as u8) - 32) as char
    } else {
        c
    }
}

/// The normal form of a name: every ASCII letter in upper case.
pub open spec fn normalize(s: Seq<char>) -> Seq<char> {
    Seq::new(s.len(), |i: int| upper(s[i]))
}

/// An upper-case ASCII letter or a digit.
pub open spec fn is_name_char(c: char) -> bool {
    ('A' <= c && c <= 'Z') || ('0' <= c && c <= '9')
}

/// Whether the first `n` characters of `v` can begin a name: letters, digits
/// and single dashes, the first character no dash.
pub open spec fn is_name_prefix(v: Seq<char>, n: int) -> bool {
    &&& n > 0 ==> v[0] != '-'
    &&& forall|i: int| 0 <= i < n ==> is_name_char(#[trigger] v[i]) || v[i] == '-'
    &&& forall|i: int| 0 <= i < n - 1 ==> !(#[trigger] v[i] == '-' && v[i + 1] == '-')
}

/// A normal form is a name when it is a non-empty list of non-empty segments
/// of letters and digits, separated by single dashes.
pub open spec fn is_valid_name(v: Seq<char>) -> bool {
    &&& v.len() > 0
    &&& v[v.len() - 1] != '-'
    &&& is_name_prefix(v, v.len() as int)
}

proof fn lemma_name_prefix_step(v: Seq<char>, n: int)
    requires
        0 <= n < v.len(),
    ensures
        is_name_prefix(v, n + 1) <==> (is_name_prefix(v, n) && (is_name_char(v[n]) || v[n] == '-')
            && !(v[n] == '-' && (n == 0 || v[n - 1] == '-'))),
{
    if is_name_prefix(v, n + 1) {
        assert(is_name_char(v[n]) || v[n] == '-');
        if n > 0 {
            assert(!(v[n - 1] == '-' && v[n - 1 + 1] == '-'));
        }
        assert(is_name_prefix(v, n));
    }
}

/// The normal form that `s` denotes, if `s` is a name.
pub open spec fn name_of(s: Seq<char>) -> Option<Seq<char>> {
    if is_valid_name(normalize(s)) {
        Some(normalize(s))
    } else {
        None
    }
}

/// Whether the first segment of `v` is exactly the three letters `a`, `b`, `c`.
pub open spec fn first_segment_is(v: Seq<char>, a: char, b: char, c: char) -> bool {
    v.len() >= 3 && v[0] == a && v[1] == b && v[2] == c && (v.len() == 3 || v[3] == '-')
}

/// The type that a normal form stands for.
pub open spec fn type_of(v: Seq<char>) -> ArtType {
    if first_segment_is(v, 'R', 'E', 'Q') {
        ArtType::REQ
    } else if first_segment_is(v, 'S', 'P', 'C') {
        ArtType::SPC
    } else if first_segment_is(v, 'T', 'S', 'T') {
        ArtType::TST
    } else {
        ArtType::Other
    }
}

/// The message of the error for a string that is no name.
pub open spec fn invalid_name_message(s: Seq<char>) -> Seq<char> {
    "invalid artifact name: "@ + s
}

/// The name of an artifact, held in its normal form.
#[derive(Debug)]
pub struct ArtName {
    value: String,
}

impl View for ArtName {
    type V = Seq<char>;

    closed spec fn view(&self) -> Seq<char> {
        self.value@
    }
}

fn to_upper(c: char) -> (r: char)
    ensures
        r == upper(c),
{
    if 'a' <= c && c <= 'z' {
        ((c as u8) - 32) as char
    } else {
        c
    }
}

impl ArtName {
    #[verifier::type_invariant]
    pub closed spec fn valid(&self) -> bool {
        is_valid_name(self.value@)
    }

    /// Reads a name: succeeds exactly on the strings whose normal form is a name.
    pub fn from_str(s: &str) -> (res: LoadResult<ArtName>)
        ensures
            match res {
                Ok(n) => name_of(s@) == Some(n@),
                Err(e) => name_of(s@) is None && e@ == (
                    ErrorKind::InvalidName,
                    invalid_name_message(s@),
                ),
            },
    {
        let raw = chars_of(s);
        let n = raw.len();
        let ghost t = normalize(s@);
        let mut up: Vec<char> = Vec::new();
        let mut ok = true;
        let mut i: usize = 0;
        while i < n
            invariant
                i <= n,
                n == raw.len(),
                raw@ == s@,
                t == normalize(s@),
                up@ == t.take(i as int),
                ok == is_name_prefix(t, i as int),
            decreases n - i,
        {
            let c = to_upper(raw[i]);
            let name_char = ('A' <= c && c <= 'Z') || ('0' <= c && c <= '9');
            proof {
                lemma_name_prefix_step(t, i as int);
            }
            if !(name_char || c == '-') {
                ok = false;
            }
            if c == '-' && (i == 0 || up[i - 1] == '-') {
                ok = false;
            }
            up.push(c);
            i += 1;
        }
        assert(up@ == normalize(s@));
        if n > 0 && ok && up[n - 1] != '-' {
            let value = string_of(&up, 0, n);
            assert(value@ == up@);
            Ok(ArtName { value })
        } else {
            let mut desc = String::from_str("invalid artifact name: ");
            desc.append(s);
            Err(LoadError::new(ErrorKind::InvalidName, desc))
        }
    }

    /// The normal form as a string.
    pub fn value(&self) -> (s: &String)
        ensures
            s@ == self@,
    {
        &self.value
    }

    /// The type that the first segment of the name gives.
    pub fn get_type(&self) -> (t: ArtType)
        ensures
            t == type_of(self@),
    {
        let v = chars_of(self.value.as_str());
        if v.len() < 3 || !(v.len() == 3 || v[3] == '-') {
            ArtType::Other
        } else if v[0] == 'R' && v[1] == 'E' && v[2] == 'Q' {
            ArtType::REQ
        } else if v[0] == 'S' && v[1] == 'P' && v[2] == 'C' {
            ArtType::SPC
        } else if v[0] == 'T' && v[1] == 'S' && v[2] == 'T' {
            ArtType::TST
        } else {
            ArtType::Other
        }
    }

    /// Whether two names are the same name.
    pub fn same(&self, other: &ArtName) -> (r: bool)
        ensures
            r == (self@ == other@),
    {
        self.value == other.value
    }
}

impl Clone for ArtName {
    fn clone(&self) -> (r: ArtName)
        ensures
            r@ == self@,
    {
        proof {
            use_type_invariant(self);
        }
        ArtName { value: self.value.clone() }
    }
}

/// A set of names, in the order in which they were first inserted.
#[derive(Debug)]
pub struct NameSet {
    names: Vec<ArtName>,
}

impl View for NameSet {
    type V = Seq<Seq<char>>;

    closed spec fn view(&self) -> Seq<Seq<char>> {
        Seq::new(self.names@.len(), |i: int| self.names@[i]@)
    }
}

impl NameSet {
    /// No name occurs twice.
    #[verifier::type_invariant]
    pub open spec fn wf(&self) -> bool {
        self@.no_duplicates()
    }

    pub fn new() -> (s: NameSet)
        ensures
            s@ == Seq::<Seq<char>>::empty(),
    {
        let s = NameSet { names: Vec::new() };
        assert(s@ =~= Seq::<Seq<char>>::empty());
        s
    }

    pub fn len(&self) -> (n: usize)
        ensures
            n == self@.len(),
            self.wf(),
    {
        proof {
            use_type_invariant(self);
        }
        self.names.len()
    }

    /// The name at position `i`.
    pub fn get(&self, i: usize) -> (n: &ArtName)
        requires
            i < self@.len(),
        ensures
            n@ == self@[i as int],
    {
        &self.names[i]
    }

    pub fn contains(&self, name: &ArtName) -> (r: bool)
        ensures
            r == self@.contains(name@),
    {
        let mut i: usize = 0;
        while i < self.names.len()
            invariant
                i <= self.names.len(),
                forall|j: int| 0 <= j < i ==> self@[j] != name@,
            decreases self.names.len() - i,
        {
            if self.names[i].same(name) {
                assert(self@[i as int] == name@);
                return true;
            }
            i += 1;
        }
        false
    }

    /// Adds a name behind the others unless the set holds it; says whether it
    /// was added.
    pub fn insert(&mut self, name: ArtName) -> (added: bool)
        ensures
            final(self).wf(),
            added == !old(self)@.contains(name@),
            final(self)@ == if added {
                old(self)@.push(name@)
            } else {
                old(self)@
            },
    {
        proof {
            use_type_invariant(&*self);
        }
        if self.contains(&name) {
            false
        } else {
            let ghost before = *self;
            let mut names: Vec<ArtName> = Vec::new();
            std::mem::swap(&mut self.names, &mut names);
            names.push(name);
            proof {
                let after = NameSet { names };
                assert(after@ =~= before@.push(name@));
            }
            std::mem::swap(&mut self.names, &mut names);
            true
        }
    }
}

impl Clone for NameSet {
    fn clone(&self) -> (r: NameSet)
        ensures
            r@ == self@,
    {
        proof {
            use_type_invariant(self);
        }
        let mut names: Vec<ArtName> = Vec::new();
        let mut i: usize = 0;
        while i < self.names.len()
            invariant
                i <= self.names.len(),
                names@.len() == i,
                forall|j: int| 0 <= j < i ==> (#[trigger] names@[j])@ == self.names@[j]@,
            decreases self.names.len() - i,
        {
            names.push(self.names[i].clone());
            i += 1;
        }
        proof {
            let copy = NameSet { names };
            assert(copy@ =~= self@);
        }
        NameSet { names }
    }
}

} // verus!
