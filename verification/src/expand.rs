//! The grammar of name lists: items separated by commas, where an item may
//! end in a bracketed list whose every alternative continues the item.

use vstd::prelude::*;
use crate::error::{ErrorKind, Failure, LoadError, LoadResult};
use crate::name::{name_of, normalize, invalid_name_message, ArtName, NameSet};
use crate::text::{chars_of, distinct, string_of, views};

verus! {

/// What an expansion yields: the items it denotes and the input left behind
/// it, or the reason for which the input is refused.
pub type Expansion = Result<(Seq<Seq<char>>, Seq<char>), ErrorKind>;

/// The characters that the grammar skips.
pub open spec fn is_blank(c: char) -> bool {
    c == ' ' || c == '\n' || c == '\r'
}

/// The items that a literal run closes: the run itself, unless it is empty.
pub open spec fn closed_item(cur: Seq<char>) -> Seq<Seq<char>> {
    if cur.len() == 0 {
        Seq::empty()
    } else {
        seq![cur]
    }
}

/// Every item of `items` with `prefix` before it.
pub open spec fn with_prefix(prefix: Seq<char>, items: Seq<Seq<char>>) -> Seq<Seq<char>> {
    Seq::new(items.len(), |i: int| prefix + items[i])
}

/// An expansion with `first` before its items.
pub open spec fn prepend(first: Seq<Seq<char>>, e: Expansion) -> Expansion {
    match e {
        Ok((items, rest)) => Ok((first + items, rest)),
        Err(k) => Err(k),
    }
}

/// The expansion of the list that starts `s`, read with the literal run `cur`
/// already open. Inside a group the list ends at its `]`, and the end of the
/// input is an error; outside, the list ends at the end of the input or at a
/// `]`.
pub open spec fn expand(s: Seq<char>, cur: Seq<char>, inside: bool) -> Expansion
    decreases s.len(),
{
    if s.len() == 0 {
        if inside {
            Err(ErrorKind::UnclosedBracket)
        } else {
            Ok((closed_item(cur), s))
        }
    } else {
        let c = s[0];
        let t = s.drop_first();
        if is_blank(c) {
            expand(t, cur, inside)
        } else if c == ',' {
            prepend(closed_item(cur), expand(t, Seq::empty(), inside))
        } else if c == ']' {
            Ok((closed_item(cur), t))
        } else if c == '[' {
            if cur.len() == 0 {
                Err(ErrorKind::EmptyPrefix)
            } else {
                match expand(t, Seq::empty(), true) {
                    Err(k) => Err(k),
                    Ok((inner, rest)) => if rest.len() <= t.len() {
                        prepend(with_prefix(cur, inner), expand(rest, Seq::empty(), inside))
                    } else {
                        Err(ErrorKind::UnclosedBracket)
                    },
                }
            }
        } else {
            expand(t, cur.push(c), inside)
        }
    }
}

/// An expansion leaves a suffix of its input behind, and inside a group a
/// proper one. Its items are not empty.
pub proof fn lemma_expand_rest(s: Seq<char>, cur: Seq<char>, inside: bool)
    ensures
        match expand(s, cur, inside) {
            Ok((items, rest)) => rest.len() <= s.len() && (inside ==> rest.len() < s.len())
                && rest == s.subrange(s.len() - rest.len(), s.len() as int)
                && forall|i: int| 0 <= i < items.len() ==> (#[trigger] items[i]).len() > 0,
            Err(_) => true,
        },
    decreases s.len(),
{
    if s.len() == 0 {
        assert(s.subrange(0, 0) =~= s);
    } else {
        let c = s[0];
        let t = s.drop_first();
        if is_blank(c) {
            lemma_expand_rest(t, cur, inside);
            lemma_suffix_of_tail(s, expand(t, cur, inside));
        } else if c == ',' {
            lemma_expand_rest(t, Seq::empty(), inside);
            lemma_suffix_of_tail(s, expand(t, Seq::empty(), inside));
        } else if c == ']' {
            assert(t == s.subrange(s.len() - t.len(), s.len() as int));
        } else if c == '[' {
            if cur.len() > 0 {
                lemma_expand_rest(t, Seq::empty(), true);
                match expand(t, Seq::empty(), true) {
                    Err(_) => {},
                    Ok((inner, rest)) => {
                        lemma_expand_rest(rest, Seq::empty(), inside);
                        match expand(rest, Seq::empty(), inside) {
                            Err(_) => {},
                            Ok((items, rest2)) => {
                                assert(rest2 =~= s.subrange(s.len() - rest2.len(), s.len() as int));
                            },
                        }
                    },
                }
            }
        } else {
            lemma_expand_rest(t, cur.push(c), inside);
            lemma_suffix_of_tail(s, expand(t, cur.push(c), inside));
        }
    }
}

proof fn lemma_suffix_of_tail(s: Seq<char>, e: Expansion)
    requires
        s.len() > 0,
        e matches Ok((_, rest)) ==> rest.len() <= s.len() - 1 && rest == s.drop_first().subrange(
            s.len() - 1 - rest.len(),
            s.len() - 1,
        ),
    ensures
        e matches Ok((_, rest)) ==> rest == s.subrange(s.len() - rest.len(), s.len() as int),
{
    if let Ok((_, rest)) = e {
        assert(rest =~= s.subrange(s.len() - rest.len(), s.len() as int));
    }
}

/// The message of the error of the given kind, for the two errors of the
/// grammar.
pub open spec fn grammar_message(k: ErrorKind) -> Seq<char> {
    if k == ErrorKind::UnclosedBracket {
        "brackets are not closed"@
    } else {
        "cannot have '[' after characters ',' or ']' or at start of string"@
    }
}

/// A position in a text that is read character by character.
pub struct CharCursor {
    chars: Vec<char>,
    pos: usize,
}

impl CharCursor {
    #[verifier::type_invariant]
    closed spec fn in_bounds(&self) -> bool {
        self.pos <= self.chars@.len()
    }

    /// The characters that are still to be read.
    pub closed spec fn remaining(&self) -> Seq<char> {
        self.chars@.subrange(self.pos as int, self.chars@.len() as int)
    }

    /// A cursor at the start of `s`.
    pub fn new(s: &str) -> (c: CharCursor)
        ensures
            c.remaining() == s@,
    {
        let c = CharCursor { chars: chars_of(s), pos: 0 };
        assert(c.remaining() =~= s@);
        c
    }

    /// Reads one character, if one is left.
    pub fn next(&mut self) -> (r: Option<char>)
        ensures
            old(self).remaining().len() == 0 ==> r is None
                && final(self).remaining() == old(self).remaining(),
            old(self).remaining().len() > 0 ==> r == Some(old(self).remaining()[0])
                && final(self).remaining() == old(self).remaining().drop_first(),
    {
        proof {
            use_type_invariant(&*self);
        }
        if self.pos < self.chars.len() {
            let c = self.chars[self.pos];
            self.pos = self.pos + 1;
            assert(self.remaining() =~= old(self).remaining().drop_first());
            Some(c)
        } else {
            None
        }
    }
}

proof fn lemma_prepend_twice(a: Seq<Seq<char>>, b: Seq<Seq<char>>, e: Expansion)
    ensures
        prepend(a, prepend(b, e)) == prepend(a + b, e),
{
    if let Ok((items, rest)) = e {
        assert(a + (b + items) =~= (a + b) + items);
    }
}

fn grammar_error(kind: ErrorKind) -> (e: LoadError)
    requires
        kind == ErrorKind::UnclosedBracket || kind == ErrorKind::EmptyPrefix,
    ensures
        e@ == (kind, grammar_message(kind)),
{
    match kind {
        ErrorKind::UnclosedBracket => LoadError::new(
            kind,
            String::from_str("brackets are not closed"),
        ),
        _ => LoadError::new(
            kind,
            String::from_str("cannot have '[' after characters ',' or ']' or at start of string"),
        ),
    }
}

/// Expands the list at the cursor into its items, and leaves the cursor
/// behind the list.
pub fn _parse_names(raw: &mut CharCursor, in_brackets: bool) -> (res: LoadResult<Vec<String>>)
    ensures
        match expand(old(raw).remaining(), Seq::empty(), in_brackets) {
            Ok((items, rest)) => res matches Ok(v) && views(v@) == items && final(raw).remaining()
                == rest,
            Err(k) => res matches Err(e) && e@ == (k, grammar_message(k)),
        },
    decreases old(raw).remaining().len(),
{
    let ghost s0 = raw.remaining();
    let mut out: Vec<String> = Vec::new();
    let mut current: Vec<char> = Vec::new();
    assert(views(out@) =~= Seq::<Seq<char>>::empty());
    assert(current@ =~= Seq::<char>::empty());
    proof {
        let e = expand(s0, Seq::empty(), in_brackets);
        lemma_prepend_twice(Seq::empty(), Seq::empty(), e);
        if let Ok((items, rest)) = e {
            assert(Seq::<Seq<char>>::empty() + items =~= items);
        }
    }
    loop
        invariant
            expand(s0, Seq::empty(), in_brackets) == prepend(
                views(out@),
                expand(raw.remaining(), current@, in_brackets),
            ),
            raw.remaining().len() <= s0.len(),
            s0 == old(raw).remaining(),
        decreases raw.remaining().len(),
    {
        let ghost s = raw.remaining();
        let ghost done = views(out@);
        let ghost cur = current@;
        match raw.next() {
            None => {
                if in_brackets {
                    return Err(grammar_error(ErrorKind::UnclosedBracket));
                }
                if current.len() > 0 {
                    let n = current.len();
                    let item = string_of(&current, 0, n);
                    assert(item@ =~= cur);
                    out.push(item);
                }
                assert(views(out@) =~= done + closed_item(cur));
                return Ok(out);
            },
            Some(c) => {
                if c == ' ' || c == '\n' || c == '\r' {
                } else if c == '[' {
                    if current.len() == 0 {
                        return Err(grammar_error(ErrorKind::EmptyPrefix));
                    }
                    let ghost t = raw.remaining();
                    let inner = match _parse_names(raw, true) {
                        Ok(inner) => inner,
                        Err(e) => {
                            return Err(e);
                        },
                    };
                    proof {
                        lemma_expand_rest(t, Seq::empty(), true);
                    }
                    let n = current.len();
                    let mut j: usize = 0;
                    while j < inner.len()
                        invariant
                            j <= inner.len(),
                            n == current.len(),
                            current@ == cur,
                            views(out@) == done + with_prefix(cur, views(inner@)).take(j as int),
                        decreases inner.len() - j,
                    {
                        let ghost before = views(out@);
                        let mut item = string_of(&current, 0, n);
                        item.append(inner[j].as_str());
                        assert(cur.subrange(0, n as int) =~= cur);
                        assert(item@ == with_prefix(cur, views(inner@))[j as int]);
                        out.push(item);
                        assert(views(out@) =~= before.push(item@));
                        assert(with_prefix(cur, views(inner@)).take(j + 1) =~= with_prefix(
                            cur,
                            views(inner@),
                        ).take(j as int).push(item@));
                        j += 1;
                    }
                    assert(with_prefix(cur, views(inner@)).take(inner.len() as int) =~= with_prefix(
                        cur,
                        views(inner@),
                    ));
                    current.clear();
                    proof {
                        lemma_prepend_twice(
                            done,
                            with_prefix(cur, views(inner@)),
                            expand(raw.remaining(), Seq::empty(), in_brackets),
                        );
                    }
                } else if c == ']' {
                    if current.len() > 0 {
                        let n = current.len();
                        let item = string_of(&current, 0, n);
                        assert(item@ =~= cur);
                        out.push(item);
                    }
                    assert(views(out@) =~= done + closed_item(cur));
                    return Ok(out);
                } else if c == ',' {
                    if current.len() > 0 {
                        let n = current.len();
                        let item = string_of(&current, 0, n);
                        assert(item@ =~= cur);
                        out.push(item);
                    }
                    assert(views(out@) =~= done + closed_item(cur));
                    current.clear();
                    proof {
                        lemma_prepend_twice(
                            done,
                            closed_item(cur),
                            expand(raw.remaining(), Seq::empty(), in_brackets),
                        );
                    }
                } else {
                    current.push(c);
                }
            },
        }
    }
}

/// The normal form of every item.
pub open spec fn normal_forms(items: Seq<Seq<char>>) -> Seq<Seq<char>> {
    Seq::new(items.len(), |i: int| normalize(items[i]))
}

/// Whether every item is a name.
pub open spec fn all_names(items: Seq<Seq<char>>) -> bool {
    forall|i: int| 0 <= i < items.len() ==> name_of(#[trigger] items[i]) is Some
}

/// Whether `items[i]` is the first item that is no name.
pub open spec fn is_first_non_name(items: Seq<Seq<char>>, i: int) -> bool {
    &&& 0 <= i < items.len()
    &&& name_of(items[i]) is None
    &&& forall|j: int| 0 <= j < i ==> name_of(#[trigger] items[j]) is Some
}

/// The position of the first item that is no name.
pub open spec fn first_non_name(items: Seq<Seq<char>>) -> int {
    choose|i: int| is_first_non_name(items, i)
}

/// The names that a list denotes: the normal forms of its items, each once,
/// in the order of their first occurrence. A list that the grammar refuses
/// denotes none, nor does one with an item that is no name.
pub open spec fn names_of(s: Seq<char>) -> Result<Seq<Seq<char>>, Failure> {
    match expand(s, Seq::empty(), false) {
        Err(k) => Err((k, grammar_message(k))),
        Ok((items, _)) => if all_names(items) {
            Ok(distinct(normal_forms(items)))
        } else {
            Err((ErrorKind::InvalidName, invalid_name_message(items[first_non_name(items)])))
        },
    }
}

/// The set of names that a list denotes.
pub fn parse_names(partof_str: &str) -> (res: LoadResult<NameSet>)
    ensures
        match names_of(partof_str@) {
            Ok(names) => res matches Ok(set) && set@ == names,
            Err(f) => res matches Err(e) && e@ == f,
        },
{
    let mut cursor = CharCursor::new(partof_str);
    let strs = match _parse_names(&mut cursor, false) {
        Ok(v) => v,
        Err(e) => {
            return Err(e);
        },
    };
    let ghost items = views(strs@);
    let mut out = NameSet::new();
    let mut i: usize = 0;
    assert(normal_forms(items).take(0) =~= Seq::<Seq<char>>::empty());
    while i < strs.len()
        invariant
            i <= strs.len(),
            items == views(strs@),
            expand(partof_str@, Seq::empty(), false) matches Ok((found, _)) && found == items,
            forall|j: int| 0 <= j < i ==> name_of(#[trigger] items[j]) is Some,
            out@ == distinct(normal_forms(items).take(i as int)),
        decreases strs.len() - i,
    {
        match ArtName::from_str(strs[i].as_str()) {
            Ok(n) => {
                proof {
                    let step = normal_forms(items).take(i + 1);
                    assert(step.drop_last() =~= normal_forms(items).take(i as int));
                    assert(step.last() == n@);
                }
                out.insert(n);
            },
            Err(e) => {
                assert(is_first_non_name(items, i as int));
                return Err(e);
            },
        }
        i += 1;
    }
    assert(normal_forms(items).take(strs.len() as int) =~= normal_forms(items));
    Ok(out)
}

/// Whether a text holds no bracket.
pub open spec fn no_brackets(s: Seq<char>) -> bool {
    forall|i: int| 0 <= i < s.len() ==> s[i] != '[' && s[i] != ']'
}

/// Whether a text holds no comma.
pub open spec fn no_commas(s: Seq<char>) -> bool {
    forall|i: int| 0 <= i < s.len() ==> s[i] != ','
}

/// The text without the characters that the grammar skips.
pub open spec fn strip_blanks(s: Seq<char>) -> Seq<char>
    decreases s.len(),
{
    if s.len() == 0 {
        s
    } else if is_blank(s[0]) {
        strip_blanks(s.drop_first())
    } else {
        seq![s[0]] + strip_blanks(s.drop_first())
    }
}

/// The pieces of a text between its commas; one more than it has commas.
pub open spec fn split_commas(s: Seq<char>) -> Seq<Seq<char>>
    decreases s.len(),
{
    if s.len() == 0 {
        seq![Seq::empty()]
    } else {
        let rest = split_commas(s.drop_first());
        if s[0] == ',' {
            seq![Seq::empty()] + rest
        } else {
            rest.update(0, seq![s[0]] + rest[0])
        }
    }
}

/// The items that are not empty.
pub open spec fn non_empty(items: Seq<Seq<char>>) -> Seq<Seq<char>> {
    items.filter(|x: Seq<char>| x.len() > 0)
}

/// The items that a list without brackets denotes: its pieces between the
/// commas, without what the grammar skips, but for the empty ones.
pub open spec fn plain_items(s: Seq<char>) -> Seq<Seq<char>> {
    non_empty(split_commas(strip_blanks(s)))
}

/// The pieces with `cur` before the first of them.
spec fn glued(cur: Seq<char>, pieces: Seq<Seq<char>>) -> Seq<Seq<char>> {
    pieces.update(0, cur + pieces[0])
}

proof fn lemma_split_not_empty(s: Seq<char>)
    ensures
        split_commas(s).len() >= 1,
    decreases s.len(),
{
    if s.len() > 0 {
        lemma_split_not_empty(s.drop_first());
    }
}

proof fn lemma_non_empty_cons(first: Seq<char>, rest: Seq<Seq<char>>)
    ensures
        non_empty(seq![first] + rest) == closed_item(first) + non_empty(rest),
{
    let pred = |x: Seq<char>| x.len() > 0;
    Seq::filter_distributes_over_add(seq![first], rest, pred);
    reveal_with_fuel(Seq::filter, 2);
    assert(seq![first].drop_last() =~= Seq::<Seq<char>>::empty());
    assert(seq![first].filter(pred) =~= closed_item(first));
}

/// A list without brackets, read with the run `cur` open and up to `tail`,
/// denotes its plain items, the first of them continuing `cur`.
proof fn lemma_plain_list(u: Seq<char>, cur: Seq<char>, inside: bool, tail: Seq<char>)
    requires
        no_brackets(u),
        tail.len() == 0 ==> !inside,
        tail.len() > 0 ==> tail[0] == ']',
    ensures
        expand(u + tail, cur, inside) == Ok::<(Seq<Seq<char>>, Seq<char>), ErrorKind>(
            (
                non_empty(glued(cur, split_commas(strip_blanks(u)))),
                if tail.len() == 0 {
                    tail
                } else {
                    tail.drop_first()
                },
            ),
        ),
    decreases u.len(),
{
    let s = u + tail;
    if u.len() == 0 {
        assert(s =~= tail);
        let pieces = split_commas(strip_blanks(u));
        assert(pieces =~= seq![Seq::<char>::empty()]);
        assert(glued(cur, pieces) =~= seq![cur] + Seq::<Seq<char>>::empty());
        lemma_non_empty_cons(cur, Seq::empty());
        reveal_with_fuel(Seq::filter, 1);
        assert(non_empty(Seq::<Seq<char>>::empty()) =~= Seq::<Seq<char>>::empty());
        assert(closed_item(cur) + Seq::<Seq<char>>::empty() =~= closed_item(cur));
    } else {
        let c = u[0];
        let t = u.drop_first();
        assert(s[0] == c);
        assert(s.drop_first() =~= t + tail);
        assert(no_brackets(t)) by {
            assert forall|i: int| 0 <= i < t.len() implies t[i] != '[' && t[i] != ']' by {
                assert(t[i] == u[i + 1]);
            }
        }
        assert(c != '[' && c != ']');
        let rest = split_commas(strip_blanks(t));
        lemma_split_not_empty(strip_blanks(t));
        if is_blank(c) {
            lemma_plain_list(t, cur, inside, tail);
        } else if c == ',' {
            lemma_plain_list(t, Seq::empty(), inside, tail);
            assert(strip_blanks(u) == seq![c] + strip_blanks(t));
            assert((seq![c] + strip_blanks(t)).drop_first() =~= strip_blanks(t));
            assert(split_commas(strip_blanks(u)) == seq![Seq::<char>::empty()] + rest);
            assert(glued(cur, split_commas(strip_blanks(u))) =~= seq![cur] + rest);
            assert(glued(Seq::empty(), rest) =~= rest) by {
                assert(Seq::<char>::empty() + rest[0] =~= rest[0]);
            }
            lemma_non_empty_cons(cur, rest);
        } else {
            lemma_plain_list(t, cur.push(c), inside, tail);
            assert(strip_blanks(u) == seq![c] + strip_blanks(t));
            assert((seq![c] + strip_blanks(t)).drop_first() =~= strip_blanks(t));
            assert(split_commas(strip_blanks(u)) == rest.update(0, seq![c] + rest[0]));
            assert(glued(cur, split_commas(strip_blanks(u))) =~= glued(cur.push(c), rest)) by {
                assert(cur + (seq![c] + rest[0]) =~= cur.push(c) + rest[0]);
            }
        }
    }
}

/// A list without brackets denotes the pieces between its commas, without
/// what the grammar skips and but for the empty ones, and nothing is left
/// behind it.
pub proof fn lemma_expand_plain(s: Seq<char>)
    requires
        no_brackets(s),
    ensures
        expand(s, Seq::empty(), false) == Ok::<(Seq<Seq<char>>, Seq<char>), ErrorKind>(
            (plain_items(s), Seq::empty()),
        ),
{
    lemma_plain_list(s, Seq::empty(), false, Seq::empty());
    assert(s + Seq::<char>::empty() =~= s);
    let pieces = split_commas(strip_blanks(s));
    lemma_split_not_empty(strip_blanks(s));
    assert(glued(Seq::empty(), pieces) =~= pieces) by {
        assert(Seq::<char>::empty() + pieces[0] =~= pieces[0]);
    }
}

/// A run without brackets and commas only lengthens the open run.
proof fn lemma_literal_run(p: Seq<char>, rest: Seq<char>, cur: Seq<char>, inside: bool)
    requires
        no_brackets(p),
        no_commas(p),
    ensures
        expand(p + rest, cur, inside) == expand(rest, cur + strip_blanks(p), inside),
    decreases p.len(),
{
    if p.len() == 0 {
        assert(p + rest =~= rest);
        assert(cur + strip_blanks(p) =~= cur);
    } else {
        let c = p[0];
        let t = p.drop_first();
        let s = p + rest;
        assert(s[0] == c);
        assert(s.drop_first() =~= t + rest);
        assert(no_brackets(t) && no_commas(t)) by {
            assert forall|i: int| 0 <= i < t.len() implies t[i] != '[' && t[i] != ']' && t[i]
                != ',' by {
                assert(t[i] == p[i + 1]);
            }
        }
        if is_blank(c) {
            lemma_literal_run(t, rest, cur, inside);
        } else {
            lemma_literal_run(t, rest, cur.push(c), inside);
            assert(cur + (seq![c] + strip_blanks(t)) =~= cur.push(c) + strip_blanks(t));
        }
    }
}

/// A prefix before one group without inner brackets denotes the prefix
/// before every item of the group: for the prefix `p`, which holds no comma
/// and is not blank, `p[inner]` denotes `p` followed by each plain item of
/// `inner`.
pub proof fn lemma_expand_group(p: Seq<char>, inner: Seq<char>)
    requires
        no_brackets(p),
        no_commas(p),
        strip_blanks(p).len() > 0,
        no_brackets(inner),
    ensures
        expand(p + seq!['['] + inner + seq![']'], Seq::empty(), false) == Ok::<
            (Seq<Seq<char>>, Seq<char>),
            ErrorKind,
        >((with_prefix(strip_blanks(p), plain_items(inner)), Seq::empty())),
{
    let prefix = strip_blanks(p);
    let group = seq!['['] + inner + seq![']'];
    let s = p + seq!['['] + inner + seq![']'];
    assert(s =~= p + group);
    lemma_literal_run(p, group, Seq::empty(), false);
    assert(Seq::<char>::empty() + prefix =~= prefix);
    let t = group.drop_first();
    assert(t =~= inner + seq![']']);
    lemma_plain_list(inner, Seq::empty(), true, seq![']']);
    let pieces = split_commas(strip_blanks(inner));
    lemma_split_not_empty(strip_blanks(inner));
    assert(glued(Seq::empty(), pieces) =~= pieces) by {
        assert(Seq::<char>::empty() + pieces[0] =~= pieces[0]);
    }
    let items = plain_items(inner);
    let rest = seq![']'].drop_first();
    assert(rest =~= Seq::<char>::empty());
    assert(expand(t, Seq::empty(), true) == Ok::<(Seq<Seq<char>>, Seq<char>), ErrorKind>(
        (items, rest),
    ));
    assert(expand(rest, Seq::empty(), false) == Ok::<(Seq<Seq<char>>, Seq<char>), ErrorKind>(
        (Seq::empty(), rest),
    ));
    assert(with_prefix(prefix, items) + Seq::<Seq<char>>::empty() =~= with_prefix(prefix, items));
    assert(group[0] == '[');
}

/// Groups nest: a prefix before a group denotes the prefix before every item
/// that the inside of the group denotes, whatever groups the inside holds in
/// its turn, and the list goes on behind the group.
pub proof fn lemma_expand_nested(p: Seq<char>, body: Seq<char>, inside: bool)
    requires
        no_brackets(p),
        no_commas(p),
        strip_blanks(p).len() > 0,
        expand(body, Seq::empty(), true) is Ok,
    ensures
        ({
            let (items, rest) = expand(body, Seq::empty(), true)->Ok_0;
            expand(p + seq!['['] + body, Seq::empty(), inside) == prepend(
                with_prefix(strip_blanks(p), items),
                expand(rest, Seq::empty(), inside),
            )
        }),
{
    let group = seq!['['] + body;
    assert(p + seq!['['] + body =~= p + group);
    lemma_literal_run(p, group, Seq::empty(), inside);
    assert(Seq::<char>::empty() + strip_blanks(p) =~= strip_blanks(p));
    assert(group.drop_first() =~= body);
    assert(group[0] == '[');
    lemma_expand_rest(body, Seq::empty(), true);
}

/// A group needs a prefix: a bracket that opens with nothing but blanks
/// before it, at the start of a list or behind a comma or a group, is
/// refused.
pub proof fn lemma_group_needs_prefix(blanks: Seq<char>, rest: Seq<char>, inside: bool)
    requires
        forall|i: int| 0 <= i < blanks.len() ==> is_blank(blanks[i]),
    ensures
        expand(blanks + seq!['['] + rest, Seq::empty(), inside) == Err::<
            (Seq<Seq<char>>, Seq<char>),
            ErrorKind,
        >(ErrorKind::EmptyPrefix),
    decreases blanks.len(),
{
    let s = blanks + seq!['['] + rest;
    if blanks.len() == 0 {
        assert(s[0] == '[');
    } else {
        let t = blanks.drop_first();
        assert(s[0] == blanks[0]);
        assert(s.drop_first() =~= t + seq!['['] + rest);
        assert forall|i: int| 0 <= i < t.len() implies is_blank(t[i]) by {
            assert(t[i] == blanks[i + 1]);
        }
        lemma_group_needs_prefix(t, rest, inside);
    }
}

/// A group must be closed: inside a group, a text without brackets is
/// refused, as the group never ends.
pub proof fn lemma_unclosed_group_fails(u: Seq<char>, cur: Seq<char>)
    requires
        no_brackets(u),
    ensures
        expand(u, cur, true) == Err::<(Seq<Seq<char>>, Seq<char>), ErrorKind>(
            ErrorKind::UnclosedBracket,
        ),
    decreases u.len(),
{
    if u.len() > 0 {
        let c = u[0];
        let t = u.drop_first();
        assert(no_brackets(t)) by {
            assert forall|i: int| 0 <= i < t.len() implies t[i] != '[' && t[i] != ']' by {
                assert(t[i] == u[i + 1]);
            }
        }
        if is_blank(c) {
            lemma_unclosed_group_fails(t, cur);
        } else if c == ',' {
            lemma_unclosed_group_fails(t, Seq::empty());
        } else {
            lemma_unclosed_group_fails(t, cur.push(c));
        }
    }
}

/// The characters that end a prefix: behind one of them, a new item begins.
pub open spec fn is_separator(c: char) -> bool {
    c == ',' || c == '[' || c == ']'
}

/// Whether `s` holds nothing but blanks from `a` up to `b`.
pub open spec fn blank_between(s: Seq<char>, a: int, b: int) -> bool {
    forall|k: int| a <= k < b ==> is_blank(#[trigger] s[k])
}

/// Whether the bracket at `i` opens a group that has no prefix, where `s` is
/// read with the run `cur` open: nothing but blanks stands between the
/// bracket and the comma or bracket before it, or the start of the text with
/// no run open.
pub open spec fn opens_without_prefix(s: Seq<char>, cur: Seq<char>, i: int) -> bool {
    &&& 0 <= i < s.len()
    &&& s[i] == '['
    &&& (cur.len() == 0 && blank_between(s, 0, i)) || (exists|j: int|
        0 <= j < i && is_separator(#[trigger] s[j]) && blank_between(s, j + 1, i))
}

/// How many more brackets a text opens than it closes.
pub open spec fn opened(s: Seq<char>) -> int
    decreases s.len(),
{
    if s.len() == 0 {
        0
    } else {
        opened(s.drop_last()) + (if s.last() == '[' {
            1int
        } else if s.last() == ']' {
            -1int
        } else {
            0int
        })
    }
}

proof fn lemma_opened_add(a: Seq<char>, b: Seq<char>)
    ensures
        opened(a + b) == opened(a) + opened(b),
    decreases b.len(),
{
    if b.len() == 0 {
        assert(a + b =~= a);
    } else {
        assert((a + b).drop_last() =~= a + b.drop_last());
        lemma_opened_add(a, b.drop_last());
    }
}

proof fn lemma_opened_one(c: char)
    ensures
        opened(seq![c]) == if c == '[' {
            1int
        } else if c == ']' {
            -1int
        } else {
            0int
        },
{
    assert(seq![c].drop_last() =~= Seq::<char>::empty());
    assert(opened(seq![c].drop_last()) == 0);
}

/// The bracket without a prefix stays one in what is left of the text behind
/// a point from which no run is open.
proof fn lemma_opens_behind(s: Seq<char>, cur: Seq<char>, i: int, off: int)
    requires
        opens_without_prefix(s, cur, i),
        0 < off <= i,
    ensures
        opens_without_prefix(s.subrange(off, s.len() as int), Seq::empty(), i - off),
{
    let u = s.subrange(off, s.len() as int);
    if exists|j: int| off <= j < i && is_separator(#[trigger] s[j]) && blank_between(s, j + 1, i) {
        let j = choose|j: int|
            off <= j < i && is_separator(#[trigger] s[j]) && blank_between(s, j + 1, i);
        assert(is_separator(u[j - off]));
        assert(blank_between(u, j - off + 1, i - off)) by {
            assert forall|k: int| j - off + 1 <= k < i - off implies is_blank(#[trigger] u[k]) by {
                assert(is_blank(s[k + off]));
            }
        }
    } else {
        assert(blank_between(u, 0, i - off)) by {
            assert forall|k: int| 0 <= k < i - off implies is_blank(#[trigger] u[k]) by {
                if cur.len() == 0 && blank_between(s, 0, i) {
                    assert(is_blank(s[k + off]));
                } else {
                    let j = choose|j: int|
                        0 <= j < i && is_separator(#[trigger] s[j]) && blank_between(s, j + 1, i);
                    assert(j < off);
                    assert(is_blank(s[k + off]));
                }
            }
        }
    }
}

/// The bracket without a prefix stays one behind a first character that is
/// no comma and no bracket.
proof fn lemma_opens_behind_literal(s: Seq<char>, cur: Seq<char>, next: Seq<char>, i: int)
    requires
        opens_without_prefix(s, cur, i),
        i > 0,
        !is_separator(s[0]),
        is_blank(s[0]) ==> next == cur,
    ensures
        opens_without_prefix(s.drop_first(), next, i - 1),
{
    let t = s.drop_first();
    if cur.len() == 0 && blank_between(s, 0, i) {
        assert(is_blank(s[0]));
        assert(blank_between(t, 0, i - 1)) by {
            assert forall|k: int| 0 <= k < i - 1 implies is_blank(#[trigger] t[k]) by {
                assert(is_blank(s[k + 1]));
            }
        }
    } else {
        let j = choose|j: int|
            0 <= j < i && is_separator(#[trigger] s[j]) && blank_between(s, j + 1, i);
        assert(j >= 1);
        assert(is_separator(t[j - 1]));
        assert(blank_between(t, j, i - 1)) by {
            assert forall|k: int| j <= k < i - 1 implies is_blank(#[trigger] t[k]) by {
                assert(is_blank(s[k + 1]));
            }
        }
    }
}

/// A bracket without a prefix is never passed: the expansion is refused for
/// it, or it ends before it reaches the bracket.
proof fn lemma_no_prefix_not_passed(s: Seq<char>, cur: Seq<char>, inside: bool, i: int)
    requires
        opens_without_prefix(s, cur, i),
    ensures
        match expand(s, cur, inside) {
            Err(k) => k == ErrorKind::EmptyPrefix,
            Ok((_, rest)) => s.len() - rest.len() <= i,
        },
    decreases s.len(),
{
    let c = s[0];
    let t = s.drop_first();
    assert(t =~= s.subrange(1, s.len() as int));
    if i == 0 {
        assert(cur.len() == 0);
    } else {
        assert(t[i - 1] == s[i]);
        if is_blank(c) {
            lemma_opens_behind_literal(s, cur, cur, i);
            lemma_no_prefix_not_passed(t, cur, inside, i - 1);
        } else if c == ',' {
            lemma_opens_behind(s, cur, i, 1);
            lemma_no_prefix_not_passed(t, Seq::empty(), inside, i - 1);
        } else if c == ']' {
        } else if c == '[' {
            if cur.len() > 0 {
                lemma_opens_behind(s, cur, i, 1);
                lemma_no_prefix_not_passed(t, Seq::empty(), true, i - 1);
                lemma_expand_rest(t, Seq::empty(), true);
                match expand(t, Seq::empty(), true) {
                    Err(_) => {},
                    Ok((inner, rest)) => {
                        let q = t.len() - rest.len();
                        assert(1 <= q <= i - 1);
                        lemma_opens_behind(t, Seq::empty(), i - 1, q);
                        lemma_no_prefix_not_passed(rest, Seq::empty(), inside, i - 1 - q);
                    },
                }
            }
        } else {
            lemma_opens_behind_literal(s, cur, cur.push(c), i);
            lemma_no_prefix_not_passed(t, cur.push(c), inside, i - 1);
        }
    }
}

/// A list that ends before its text does, or inside a group, ends behind a
/// closing bracket that nothing before it in the text opens.
proof fn lemma_list_ends_unmatched(s: Seq<char>, cur: Seq<char>, inside: bool)
    ensures
        expand(s, cur, inside) matches Ok((_, rest)) ==> (rest.len() > 0 || inside) ==> rest.len()
            <= s.len() && opened(s.take(s.len() - rest.len())) == -1,
    decreases s.len(),
{
    lemma_expand_rest(s, cur, inside);
    if s.len() > 0 {
        let c = s[0];
        let t = s.drop_first();
        lemma_opened_one(c);
        if c == ']' {
            assert(s.take(1) =~= seq![c]);
        } else if c == '[' {
            if cur.len() > 0 {
                lemma_list_ends_unmatched(t, Seq::empty(), true);
                lemma_expand_rest(t, Seq::empty(), true);
                if let Ok((inner, rest)) = expand(t, Seq::empty(), true) {
                    let q = t.len() - rest.len();
                    lemma_list_ends_unmatched(rest, Seq::empty(), inside);
                    lemma_expand_rest(rest, Seq::empty(), inside);
                    if let Ok((items, rest2)) = expand(rest, Seq::empty(), inside) {
                        if rest2.len() > 0 || inside {
                            let p2 = rest.len() - rest2.len();
                            let p = s.len() - rest2.len();
                            assert(s.take(p) =~= (seq![c] + t.take(q)) + rest.take(p2));
                            lemma_opened_add(seq![c] + t.take(q), rest.take(p2));
                            lemma_opened_add(seq![c], t.take(q));
                        }
                    }
                }
            }
        } else {
            let next = if is_blank(c) {
                cur
            } else if c == ',' {
                Seq::empty()
            } else {
                cur.push(c)
            };
            lemma_list_ends_unmatched(t, next, inside);
            lemma_expand_rest(t, next, inside);
            if let Ok((items, rest)) = expand(t, next, inside) {
                if rest.len() > 0 || inside {
                    let p = s.len() - rest.len();
                    assert(s.take(p) =~= seq![c] + t.take(p - 1));
                    lemma_opened_add(seq![c], t.take(p - 1));
                }
            }
        }
    }
}

/// A group needs a prefix, wherever it stands: a list is refused if it holds
/// a bracket that opens with nothing but blanks between it and the comma or
/// bracket before it, or the start of the list, as long as the brackets
/// before it are closed only where they were opened. (A closing bracket that
/// nothing opens would end the list before the group.)
pub proof fn lemma_group_without_prefix_fails(s: Seq<char>, i: int)
    requires
        opens_without_prefix(s, Seq::empty(), i),
        forall|j: int| 0 <= j <= i ==> opened(#[trigger] s.take(j)) >= 0,
    ensures
        expand(s, Seq::empty(), false) == Err::<(Seq<Seq<char>>, Seq<char>), ErrorKind>(
            ErrorKind::EmptyPrefix,
        ),
{
    lemma_no_prefix_not_passed(s, Seq::empty(), false, i);
    lemma_list_ends_unmatched(s, Seq::empty(), false);
    if let Ok((items, rest)) = expand(s, Seq::empty(), false) {
        let p = s.len() - rest.len();
        assert(opened(s.take(p)) >= 0);
    }
}

} // verus!
