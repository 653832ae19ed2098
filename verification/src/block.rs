//! Block identifiers: parsing, canonical form, and the sorted property map.

use vstd::prelude::*;
use vstd::string::StrSliceExecFns;
use vstd::string::StringExecFns;

verus! {

/// Why a block string failed to parse.
#[derive(Debug, Clone, Copy, PartialEq, Eq, Structural)]
pub enum ParseError {
    /// The text after the first `[` does not end with `]`.
    MalformedBracket,
    /// A property clause contains no `=`.
    MissingEquals,
}

/// Mathematical model of a block identifier: an id and a sequence of
/// key/value properties, kept in strictly increasing key order.
#[verifier::ext_equal]
pub ghost struct BlockModel {
    pub id: Seq<char>,
    pub props: Seq<(Seq<char>, Seq<char>)>,
}

/// Lexicographic order on character sequences, by code point.
pub open spec fn str_lt(a: Seq<char>, b: Seq<char>) -> bool
    decreases a.len(),
{
    if b.len() == 0 {
        false
    } else if a.len() == 0 {
        true
    } else if a[0] == b[0] {
        str_lt(a.skip(1), b.skip(1))
    } else {
        a[0] < b[0]
    }
}

/// The property keys are strictly increasing, so they are unique and sorted.
pub open spec fn props_sorted(ps: Seq<(Seq<char>, Seq<char>)>) -> bool {
    forall|i: int, j: int|
        0 <= i < j < ps.len() ==> str_lt(#[trigger] ps[i].0, #[trigger] ps[j].0)
}

/// Inserts `(k, v)` into a key-sorted property sequence; an existing entry
/// with key `k` is overwritten.
pub open spec fn sorted_insert(
    ps: Seq<(Seq<char>, Seq<char>)>,
    k: Seq<char>,
    v: Seq<char>,
) -> Seq<(Seq<char>, Seq<char>)>
    decreases ps.len(),
{
    if ps.len() == 0 {
        seq![(k, v)]
    } else if str_lt(k, ps[0].0) {
        seq![(k, v)] + ps
    } else if k == ps[0].0 {
        seq![(k, v)] + ps.skip(1)
    } else {
        seq![ps[0]] + sorted_insert(ps.skip(1), k, v)
    }
}

/// Whether `c` occurs in `s`.
pub open spec fn contains_char(s: Seq<char>, c: char) -> bool {
    exists|i: int| 0 <= i < s.len() && s[i] == c
}

/// Index of the first occurrence of `c` in `s`, or `s.len()` if absent.
pub open spec fn first_ix(s: Seq<char>, c: char) -> int
    decreases s.len(),
{
    if s.len() == 0 {
        0
    } else if s[0] == c {
        0
    } else {
        1 + first_ix(s.skip(1), c)
    }
}

proof fn lemma_first_ix(s: Seq<char>, c: char)
    ensures
        0 <= first_ix(s, c) <= s.len(),
        contains_char(s, c) ==> first_ix(s, c) < s.len() && s[first_ix(s, c)] == c,
        forall|j: int| 0 <= j < first_ix(s, c) ==> s[j] != c,
        !contains_char(s, c) ==> first_ix(s, c) == s.len(),
    decreases s.len(),
{
    if s.len() == 0 {
        assert(!contains_char(s, c));
    } else if s[0] == c {
    } else {
        lemma_first_ix(s.skip(1), c);
        assert forall|j: int| 0 <= j < first_ix(s, c) implies s[j] != c by {
            if j > 0 {
                assert(s.skip(1)[j - 1] == s[j]);
            }
        }
        if contains_char(s, c) {
            let w = choose|i: int| 0 <= i < s.len() && s[i] == c;
            assert(s.skip(1)[w - 1] == c);
            assert(contains_char(s.skip(1), c));
        }
        if contains_char(s.skip(1), c) {
            let w = choose|i: int| 0 <= i < s.skip(1).len() && s.skip(1)[i] == c;
            assert(s[w + 1] == c);
            assert(contains_char(s, c));
        }
    }
}

/// A scan that saw no `c` before `i`, and `c` at `i` unless it ran out,
/// has found the first occurrence.
proof fn lemma_first_ix_is(s: Seq<char>, c: char, i: int)
    requires
        0 <= i <= s.len(),
        forall|j: int| 0 <= j < i ==> s[j] != c,
        i < s.len() ==> s[i] == c,
    ensures
        first_ix(s, c) == i,
        contains_char(s, c) <==> i < s.len(),
    decreases s.len(),
{
    lemma_first_ix(s, c);
    if i < s.len() {
        assert(contains_char(s, c));
        if first_ix(s, c) < i {
            assert(s[first_ix(s, c)] != c);
        }
    } else {
        if contains_char(s, c) {
            let w = choose|j: int| 0 <= j < s.len() && s[j] == c;
            assert(s[w] != c);
        }
    }
}

proof fn lemma_str_lt_trichotomy(a: Seq<char>, b: Seq<char>)
    ensures
        str_lt(a, b) || str_lt(b, a) || a == b,
    decreases a.len(),
{
    if a.len() == 0 || b.len() == 0 {
        if a.len() == 0 && b.len() == 0 {
            assert(a =~= b);
        }
    } else if a[0] == b[0] {
        lemma_str_lt_trichotomy(a.skip(1), b.skip(1));
        if a.skip(1) == b.skip(1) {
            assert(a.skip(1).len() == a.len() - 1);
            assert(b.skip(1).len() == b.len() - 1);
            assert forall|i: int| 0 <= i < a.len() implies a[i] == b[i] by {
                if i >= 1 {
                    assert(a[i] == a.skip(1)[i - 1]);
                    assert(b[i] == b.skip(1)[i - 1]);
                }
            }
            assert(a =~= b);
        }
    }
}

proof fn lemma_str_lt_trans(a: Seq<char>, b: Seq<char>, c: Seq<char>)
    requires
        str_lt(a, b),
        str_lt(b, c),
    ensures
        str_lt(a, c),
    decreases a.len() + b.len() + c.len(),
{
    if b.len() == 0 || c.len() == 0 {
    } else if a.len() == 0 {
    } else {
        if a[0] == b[0] && b[0] == c[0] {
            lemma_str_lt_trans(a.skip(1), b.skip(1), c.skip(1));
        }
    }
}

proof fn lemma_sorted_insert_sorted(ps: Seq<(Seq<char>, Seq<char>)>, k: Seq<char>, v: Seq<char>)
    requires
        props_sorted(ps),
    ensures
        props_sorted(sorted_insert(ps, k, v)),
    decreases ps.len(),
{
    let r = sorted_insert(ps, k, v);
    if ps.len() == 0 {
    } else if str_lt(k, ps[0].0) {
        assert forall|i: int, j: int| 0 <= i < j < r.len() implies str_lt(
            #[trigger] r[i].0,
            #[trigger] r[j].0,
        ) by {
            if i == 0 {
                if j > 1 {
                    lemma_str_lt_trans(k, ps[0].0, ps[j - 1].0);
                }
            }
        }
    } else if k == ps[0].0 {
        assert forall|i: int, j: int| 0 <= i < j < r.len() implies str_lt(
            #[trigger] r[i].0,
            #[trigger] r[j].0,
        ) by {
            assert(r[j].0 == ps[j].0);
            if i > 0 {
                assert(r[i].0 == ps[i].0);
            }
        }
    } else {
        lemma_str_lt_trichotomy(k, ps[0].0);
        assert(str_lt(ps[0].0, k));
        assert(props_sorted(ps.skip(1))) by {
            assert(forall|i: int, j: int|
                0 <= i < j < ps.skip(1).len() ==> str_lt(
                    #[trigger] ps.skip(1)[i].0,
                    #[trigger] ps.skip(1)[j].0,
                ));
        }
        lemma_sorted_insert_sorted(ps.skip(1), k, v);
        let rr = sorted_insert(ps.skip(1), k, v);
        lemma_sorted_insert_keys(ps.skip(1), k, v);
        assert forall|i: int, j: int| 0 <= i < j < r.len() implies str_lt(
            #[trigger] r[i].0,
            #[trigger] r[j].0,
        ) by {
            if i == 0 {
                assert(r[j].0 == rr[j - 1].0);
                if str_lt(k, rr[j - 1].0) || k == rr[j - 1].0 {
                    assert(str_lt(ps[0].0, rr[j - 1].0));
                } else {
                    assert(ps.skip(1).contains(rr[j - 1])
                        || rr[j - 1].0 == k);
                    if ps.skip(1).contains(rr[j - 1]) {
                        let w = choose|t: int|
                            0 <= t < ps.skip(1).len() && ps.skip(1)[t] == rr[j - 1];
                        assert(ps[w + 1] == rr[j - 1]);
                        if w + 1 > 1 {
                            lemma_str_lt_trans(ps[0].0, ps[1].0, ps[w + 1].0);
                        }
                        assert(str_lt(ps[0].0, rr[j - 1].0));
                    }
                }
            } else {
                assert(r[i].0 == rr[i - 1].0);
                assert(r[j].0 == rr[j - 1].0);
            }
        }
    }
}

/// Every entry of `sorted_insert(ps, k, v)` is an entry of `ps` or has key `k`.
proof fn lemma_sorted_insert_keys(ps: Seq<(Seq<char>, Seq<char>)>, k: Seq<char>, v: Seq<char>)
    ensures
        forall|t: int|
            0 <= t < sorted_insert(ps, k, v).len() ==> (ps.contains(
                #[trigger] sorted_insert(ps, k, v)[t],
            ) || sorted_insert(ps, k, v)[t].0 == k),
    decreases ps.len(),
{
    let r = sorted_insert(ps, k, v);
    if ps.len() == 0 {
    } else if str_lt(k, ps[0].0) {
        assert forall|t: int| 0 <= t < r.len() implies (ps.contains(#[trigger] r[t]) || r[t].0
            == k) by {
            if t > 0 {
                assert(ps[t - 1] == r[t]);
            }
        }
    } else if k == ps[0].0 {
        assert forall|t: int| 0 <= t < r.len() implies (ps.contains(#[trigger] r[t]) || r[t].0
            == k) by {
            if t > 0 {
                assert(ps[t] == r[t]);
            }
        }
    } else {
        lemma_sorted_insert_keys(ps.skip(1), k, v);
        let rr = sorted_insert(ps.skip(1), k, v);
        assert forall|t: int| 0 <= t < r.len() implies (ps.contains(#[trigger] r[t]) || r[t].0
            == k) by {
            if t == 0 {
                assert(ps[0] == r[0]);
            } else {
                assert(r[t] == rr[t - 1]);
                if ps.skip(1).contains(rr[t - 1]) {
                    let w = choose|u: int|
                        0 <= u < ps.skip(1).len() && ps.skip(1)[u] == rr[t - 1];
                    assert(ps[w + 1] == rr[t - 1]);
                }
            }
        }
    }
}

/// Parses the comma-separated property clauses of `s`, inserting each
/// `key=value` pair into the accumulated sorted map `acc`.
pub open spec fn spec_parse_props(
    s: Seq<char>,
    acc: Seq<(Seq<char>, Seq<char>)>,
) -> Result<Seq<(Seq<char>, Seq<char>)>, ParseError>
    decreases s.len(),
    via spec_parse_props_dec
{
    let clause = if contains_char(s, ',') {
        s.take(first_ix(s, ','))
    } else {
        s
    };
    if !contains_char(clause, '=') {
        Err(ParseError::MissingEquals)
    } else {
        let k = clause.take(first_ix(clause, '='));
        let v = clause.skip(first_ix(clause, '=') + 1);
        let acc2 = sorted_insert(acc, k, v);
        if contains_char(s, ',') {
            spec_parse_props(s.skip(first_ix(s, ',') + 1), acc2)
        } else {
            Ok(acc2)
        }
    }
}

#[via_fn]
proof fn spec_parse_props_dec(s: Seq<char>, acc: Seq<(Seq<char>, Seq<char>)>) {
    lemma_first_ix(s, ',');
}

/// What parsing a block string yields: the text before the first `[` is the
/// id; with a bracket, the remainder must end in `]` and its interior is a
/// comma-separated list of `key=value` clauses, collected into a sorted map
/// in which a repeated key overwrites the earlier value.
pub open spec fn spec_parse(s: Seq<char>) -> Result<BlockModel, ParseError> {
    if !contains_char(s, '[') {
        Ok(BlockModel { id: s, props: Seq::empty() })
    } else {
        let id = s.take(first_ix(s, '['));
        let rest = s.skip(first_ix(s, '[') + 1);
        if rest.len() == 0 || rest.last() != ']' {
            Err(ParseError::MalformedBracket)
        } else {
            match spec_parse_props(rest.drop_last(), Seq::empty()) {
                Ok(ps) => Ok(BlockModel { id: id, props: ps }),
                Err(e) => Err(e),
            }
        }
    }
}

/// The property list in canonical text form: `k1=v1,k2=v2,...`.
pub open spec fn spec_canon_props(ps: Seq<(Seq<char>, Seq<char>)>) -> Seq<char>
    decreases ps.len(),
{
    if ps.len() == 0 {
        Seq::empty()
    } else if ps.len() == 1 {
        ps[0].0 + seq!['='] + ps[0].1
    } else {
        ps[0].0 + seq!['='] + ps[0].1 + seq![','] + spec_canon_props(ps.skip(1))
    }
}

/// The canonical text form of a block: the id alone when there are no
/// properties, else `id[k1=v1,...]` with the keys in sorted order.
pub open spec fn spec_canon(b: BlockModel) -> Seq<char> {
    if b.props.len() == 0 {
        b.id
    } else {
        b.id + seq!['['] + spec_canon_props(b.props) + seq![']']
    }
}

/// The model of an executable property vector: each string replaced by its
/// character sequence.
pub open spec fn pview(ps: Seq<(String, String)>) -> Seq<(Seq<char>, Seq<char>)> {
    ps.map_values(|p: (String, String)| (p.0@, p.1@))
}

/// A block with id and properties; the properties are kept sorted by key,
/// with unique keys.
#[derive(Debug, Clone, PartialEq, Eq)]
pub struct Block {
    id: String,
    properties: Vec<(String, String)>,
}

impl View for Block {
    type V = BlockModel;

    closed spec fn view(&self) -> BlockModel {
        BlockModel { id: self.id@, props: pview(self.properties@) }
    }
}

impl Block {
    /// The key-sorted invariant of the property map.
    pub open spec fn wf(self) -> bool {
        props_sorted(self@.props)
    }

    /// Parses a block from a string: the text before the first `[` is the
    /// id; an optional bracketed, comma-separated list of `key=value`
    /// clauses gives the properties, sorted by key with a repeated key
    /// overwriting the earlier value.
    pub fn from_str(block: &str) -> (r: Result<Block, ParseError>)
        ensures
            match r {
                Ok(b) => b.wf() && spec_parse(block@) == Ok::<BlockModel, ParseError>(b@),
                Err(e) => spec_parse(block@) == Err::<BlockModel, ParseError>(e),
            },
    {
        let n = block.unicode_len();
        let mut i: usize = 0;
        loop
            invariant
                i <= n,
                n == block@.len(),
                forall|j: int| 0 <= j < i ==> block@[j] != '[',
            ensures
                i <= n,
                forall|j: int| 0 <= j < i ==> block@[j] != '[',
                i < n ==> block@[i as int] == '[',
            decreases n - i,
        {
            if i >= n {
                break;
            }
            if block.get_char(i) == '[' {
                break;
            }
            i = i + 1;
        }
        proof {
            lemma_first_ix_is(block@, '[', i as int);
        }
        if i >= n {
            let b = Block { id: block.to_owned(), properties: Vec::new() };
            proof {
                assert(b@.props =~= Seq::<(Seq<char>, Seq<char>)>::empty());
            }
            return Ok(b);
        }
        let id_str = block.substring_char(0, i);
        let ghost rest = block@.skip(i + 1);
        if n - i - 1 == 0 {
            return Err(ParseError::MalformedBracket);
        }
        proof {
            assert(rest.last() == block@[n - 1]);
        }
        if block.get_char(n - 1) != ']' {
            return Err(ParseError::MalformedBracket);
        }
        let ghost interior = rest.drop_last();
        let iend = n - 1;
        proof {
            assert(interior =~= block@.subrange(i + 1, iend as int));
        }
        let mut properties: Vec<(String, String)> = Vec::new();
        let mut pos = i + 1;
        proof {
            assert(pview(properties@) =~= Seq::<(Seq<char>, Seq<char>)>::empty());
        }
        loop
            invariant_except_break
                spec_parse_props(interior, Seq::empty()) == spec_parse_props(
                    block@.subrange(pos as int, iend as int),
                    pview(properties@),
                ),
            invariant
                i + 1 <= pos <= iend,
                iend == n - 1,
                n == block@.len(),
                i < n,
                contains_char(block@, '['),
                first_ix(block@, '[') == i,
                rest == block@.skip(i + 1),
                rest.len() > 0,
                rest.last() == ']',
                interior == rest.drop_last(),
                props_sorted(pview(properties@)),
            ensures
                spec_parse_props(interior, Seq::empty()) == Ok::<
                    Seq<(Seq<char>, Seq<char>)>,
                    ParseError,
                >(pview(properties@)),
            decreases iend - pos,
        {
            let ghost rem = block@.subrange(pos as int, iend as int);
            let ghost acc = pview(properties@);
            let mut j = pos;
            loop
                invariant
                    pos <= j <= iend,
                    iend < block@.len(),
                    forall|t: int| pos <= t < j ==> block@[t] != ',',
                ensures
                    pos <= j <= iend,
                    forall|t: int| pos <= t < j ==> block@[t] != ',',
                    j < iend ==> block@[j as int] == ',',
                decreases iend - j,
            {
                if j >= iend {
                    break;
                }
                if block.get_char(j) == ',' {
                    break;
                }
                j = j + 1;
            }
            proof {
                assert(forall|t: int| 0 <= t < rem.len() ==> rem[t] == block@[pos + t]);
                lemma_first_ix_is(rem, ',', j - pos);
            }
            let ghost clause = if j < iend {
                rem.take(j - pos)
            } else {
                rem
            };
            proof {
                assert(clause =~= block@.subrange(pos as int, j as int));
            }
            let mut e = pos;
            loop
                invariant
                    pos <= e <= j,
                    j < block@.len(),
                    forall|t: int| pos <= t < e ==> block@[t] != '=',
                ensures
                    pos <= e <= j,
                    forall|t: int| pos <= t < e ==> block@[t] != '=',
                    e < j ==> block@[e as int] == '=',
                decreases j - e,
            {
                if e >= j {
                    break;
                }
                if block.get_char(e) == '=' {
                    break;
                }
                e = e + 1;
            }
            proof {
                assert(forall|t: int| 0 <= t < clause.len() ==> clause[t] == block@[pos + t]);
                lemma_first_ix_is(clause, '=', e - pos);
            }
            if e >= j {
                proof {
                    assert(spec_parse_props(rem, acc) == Err::<
                        Seq<(Seq<char>, Seq<char>)>,
                        ParseError,
                    >(ParseError::MissingEquals));
                }
                return Err(ParseError::MissingEquals);
            }
            let k_str = block.substring_char(pos, e);
            let v_str = block.substring_char(e + 1, j);
            proof {
                assert(k_str@ =~= clause.take(e - pos));
                assert(v_str@ =~= clause.skip(e - pos + 1));
                lemma_sorted_insert_sorted(acc, k_str@, v_str@);
            }
            insert_prop(&mut properties, k_str.to_owned(), v_str.to_owned());
            proof {
                assert(pview(properties@) == sorted_insert(acc, clause.take(e - pos), clause.skip(
                    e - pos + 1,
                )));
            }
            if j < iend {
                proof {
                    assert(rem.skip(j - pos + 1) =~= block@.subrange(j + 1, iend as int));
                    assert(spec_parse_props(rem, acc) == spec_parse_props(
                        block@.subrange(j + 1, iend as int),
                        pview(properties@),
                    ));
                }
                pos = j + 1;
            } else {
                proof {
                    assert(spec_parse_props(rem, acc) == Ok::<
                        Seq<(Seq<char>, Seq<char>)>,
                        ParseError,
                    >(pview(properties@)));
                }
                break;
            }
        }
        let b = Block { id: id_str.to_owned(), properties };
        proof {
            assert(id_str@ =~= block@.take(i as int));
        }
        Ok(b)
    }

    /// The canonical text form of this block, per [`spec_canon`].
    pub fn canonical_string(&self) -> (r: String)
        ensures
            r@ == spec_canon(self@),
    {
        let mut s = self.id.clone();
        if self.properties.len() == 0 {
            return s;
        }
        proof {
            reveal_strlit("[");
            reveal_strlit("]");
            reveal_strlit("=");
            reveal_strlit(",");
            assert("["@ =~= seq!['[']);
            assert("]"@ =~= seq![']']);
            assert("="@ =~= seq!['=']);
            assert(","@ =~= seq![',']);
        }
        s.append("[");
        let ghost ps = self@.props;
        let mut i: usize = 0;
        while i < self.properties.len()
            invariant
                i <= self.properties.len(),
                ps == self@.props,
                ps.len() == self.properties.len(),
                "["@ == seq!['['],
                "]"@ == seq![']'],
                "="@ == seq!['='],
                ","@ == seq![','],
                i == 0 ==> s@ == self@.id + seq!['['],
                i > 0 ==> s@ == self@.id + seq!['['] + spec_canon_props(ps.take(i as int)),
            decreases self.properties.len() - i,
        {
            let ghost before = s@;
            if i > 0 {
                s.append(",");
            }
            s.append(self.properties[i].0.as_str());
            s.append("=");
            s.append(self.properties[i].1.as_str());
            proof {
                assert(ps[i as int] == (self.properties@[i as int].0@,
                    self.properties@[i as int].1@));
                let clause = ps[i as int].0 + seq!['='] + ps[i as int].1;
                if i == 0 {
                    assert(ps.take(1) =~= seq![ps[0]]);
                    assert(spec_canon_props(ps.take(1)) == clause);
                    assert(s@ =~= self@.id + seq!['['] + spec_canon_props(ps.take(1)));
                } else {
                    assert(ps.take(i + 1) =~= ps.take(i as int).push(ps[i as int]));
                    lemma_canon_props_push(ps.take(i as int), ps[i as int]);
                    assert(s@ =~= before + seq![','] + ps[i as int].0 + seq!['='] + ps[i
                        as int].1);
                    assert(s@ =~= self@.id + seq!['['] + spec_canon_props(ps.take(i + 1)));
                }
            }
            i = i + 1;
        }
        s.append("]");
        proof {
            assert(ps.take(ps.len() as int) =~= ps);
            assert(s@ =~= spec_canon(self@));
        }
        s
    }
}

/// Inserting a key greater than every key present appends.
proof fn lemma_sorted_insert_append(ps: Seq<(Seq<char>, Seq<char>)>, k: Seq<char>, v: Seq<char>)
    requires
        forall|t: int| 0 <= t < ps.len() ==> str_lt((#[trigger] ps[t]).0, k),
    ensures
        sorted_insert(ps, k, v) == ps.push((k, v)),
{
    lemma_sorted_insert_split(ps, k, v, ps.len() as int);
    assert(ps.skip(ps.len() as int) =~= Seq::<(Seq<char>, Seq<char>)>::empty());
    assert(ps.take(ps.len() as int) =~= ps);
    assert(ps + seq![(k, v)] =~= ps.push((k, v)));
}

/// Keys that print as clauses: no `=` or `,` in a key, no `,` in a value.
pub open spec fn props_printable(ps: Seq<(Seq<char>, Seq<char>)>) -> bool {
    forall|i: int|
        0 <= i < ps.len() ==> !contains_char((#[trigger] ps[i]).0, '=') && !contains_char(
            ps[i].0,
            ',',
        ) && !contains_char(ps[i].1, ',')
}

/// Parsing the canonical clause text of a sorted, printable property list
/// appends those properties to the accumulator.
proof fn lemma_parse_canon_props(ps: Seq<(Seq<char>, Seq<char>)>, acc: Seq<(Seq<char>, Seq<char>)>)
    requires
        ps.len() >= 1,
        props_sorted(ps),
        props_printable(ps),
        forall|j: int, i: int|
            0 <= j < acc.len() && 0 <= i < ps.len() ==> str_lt(
                (#[trigger] acc[j]).0,
                (#[trigger] ps[i]).0,
            ),
    ensures
        spec_parse_props(spec_canon_props(ps), acc) == Ok::<Seq<(Seq<char>, Seq<char>)>, ParseError>(
            acc + ps,
        ),
    decreases ps.len(),
{
    let k = ps[0].0;
    let v = ps[0].1;
    let clause = k + seq!['='] + v;
    let cp = spec_canon_props(ps);
    assert forall|t: int| 0 <= t < clause.len() implies clause[t] != ',' by {
        if t < k.len() {
            assert(clause[t] == k[t]);
        } else if t == k.len() {
            assert(clause[t] == '=');
        } else {
            assert(clause[t] == v[t - k.len() - 1]);
        }
    }
    assert forall|t: int| 0 <= t < k.len() implies clause[t] == k[t] && clause[t] != '=' by {
        assert(clause[t] == k[t]);
    }
    assert(clause[k.len() as int] == '=');
    if ps.len() == 1 {
        assert(cp == clause);
        assert(!contains_char(cp, ','));
        lemma_first_ix_is(clause, '=', k.len() as int);
        assert(clause.take(k.len() as int) =~= k);
        assert(clause.skip(k.len() as int + 1) =~= v);
        lemma_sorted_insert_append(acc, k, v);
        assert(acc.push((k, v)) =~= acc + ps) by {
            assert((k, v) == ps[0]);
            assert(ps =~= seq![ps[0]]);
        }
    } else {
        let rest = spec_canon_props(ps.skip(1));
        assert(cp == clause + seq![','] + rest);
        let f = clause.len() as int;
        assert forall|t: int| 0 <= t < f implies cp[t] == clause[t] && cp[t] != ',' by {
            assert(cp[t] == clause[t]);
        }
        assert(cp[f] == ',');
        lemma_first_ix_is(cp, ',', f);
        assert(cp.take(f) =~= clause);
        lemma_first_ix_is(clause, '=', k.len() as int);
        assert(clause.take(k.len() as int) =~= k);
        assert(clause.skip(k.len() as int + 1) =~= v);
        lemma_sorted_insert_append(acc, k, v);
        let acc2 = acc.push((k, v));
        assert(cp.skip(f + 1) =~= rest);
        assert(props_sorted(ps.skip(1))) by {
            assert(forall|i: int, j: int|
                0 <= i < j < ps.skip(1).len() ==> str_lt(
                    (#[trigger] ps.skip(1)[i]).0,
                    (#[trigger] ps.skip(1)[j]).0,
                ));
        }
        assert(props_printable(ps.skip(1))) by {
            assert(forall|i: int|
                0 <= i < ps.skip(1).len() ==> ps.skip(1)[i] == #[trigger] ps[i + 1]);
        }
        assert forall|j: int, i: int|
            0 <= j < acc2.len() && 0 <= i < ps.skip(1).len() implies str_lt(
            (#[trigger] acc2[j]).0,
            (#[trigger] ps.skip(1)[i]).0,
        ) by {
            assert(ps.skip(1)[i] == ps[i + 1]);
            if j < acc.len() {
                assert(acc2[j] == acc[j]);
                assert(str_lt(acc[j].0, ps[i + 1].0));
            } else {
                assert(acc2[j] == (k, v));
                assert(str_lt(ps[0].0, ps[i + 1].0));
            }
        }
        lemma_parse_canon_props(ps.skip(1), acc2);
        assert(acc2 + ps.skip(1) =~= acc + ps);
        assert(spec_parse_props(cp, acc) == spec_parse_props(rest, acc2));
    }
}

/// Parse/canonicalize round trip: parsing the canonical form of a block
/// whose id holds no `[`, whose keys hold no `=` or `,`, and whose values
/// hold no `,` yields the block back; hence, for any identifier string
/// with properties given in sorted key order and no duplicate keys (the
/// canonical form of such a block), parsing and canonicalizing returns
/// the same string.
pub proof fn lemma_parse_canon_roundtrip(b: BlockModel)
    requires
        props_sorted(b.props),
        props_printable(b.props),
        !contains_char(b.id, '['),
    ensures
        spec_parse(spec_canon(b)) == Ok::<BlockModel, ParseError>(b),
{
    if b.props.len() == 0 {
        let r = spec_parse(spec_canon(b));
        assert(r == Ok::<BlockModel, ParseError>(BlockModel { id: b.id, props: Seq::empty() }));
        assert(BlockModel { id: b.id, props: Seq::empty() } =~= b);
    } else {
        let cp = spec_canon_props(b.props);
        let s = spec_canon(b);
        assert(s == b.id + seq!['['] + cp + seq![']']);
        assert forall|t: int| 0 <= t < b.id.len() implies s[t] == b.id[t] && s[t] != '[' by {
            assert(s[t] == b.id[t]);
        }
        assert(s[b.id.len() as int] == '[');
        lemma_first_ix_is(s, '[', b.id.len() as int);
        assert(s.take(b.id.len() as int) =~= b.id);
        let rest = s.skip(b.id.len() as int + 1);
        assert(rest =~= cp + seq![']']);
        assert(rest.last() == ']');
        assert(rest.drop_last() =~= cp);
        lemma_parse_canon_props(b.props, Seq::empty());
        assert(Seq::empty() + b.props =~= b.props);
        assert(BlockModel { id: s.take(b.id.len() as int), props: b.props } =~= b);
    }
}

/// The model of the `minecraft:air` block that fills a fresh grid.
pub open spec fn air_model() -> BlockModel {
    BlockModel { id: "minecraft:air"@, props: Seq::empty() }
}

/// The `minecraft:air` block.
pub fn air() -> (b: Block)
    ensures
        b@ == air_model(),
        b.wf(),
{
    let b = Block { id: "minecraft:air".to_owned(), properties: Vec::new() };
    proof {
        assert(b@.props =~= Seq::<(Seq<char>, Seq<char>)>::empty());
        assert(b@ =~= air_model());
    }
    b
}

/// Appending one property extends the canonical property text by a comma
/// and the new `key=value` clause.
proof fn lemma_canon_props_push(ps: Seq<(Seq<char>, Seq<char>)>, x: (Seq<char>, Seq<char>))
    requires
        ps.len() >= 1,
    ensures
        spec_canon_props(ps.push(x)) == spec_canon_props(ps) + seq![','] + (x.0 + seq!['='] + x.1),
    decreases ps.len(),
{
    if ps.len() == 1 {
        let q = ps.push(x);
        assert(q.skip(1) =~= seq![x]);
        assert(spec_canon_props(q.skip(1)) == x.0 + seq!['='] + x.1);
        assert(spec_canon_props(q) =~= spec_canon_props(ps) + seq![','] + (x.0 + seq!['='] + x.1));
    } else {
        let q = ps.push(x);
        assert(q.skip(1) =~= ps.skip(1).push(x));
        lemma_canon_props_push(ps.skip(1), x);
        assert(spec_canon_props(q) =~= spec_canon_props(ps) + seq![','] + (x.0 + seq!['='] + x.1));
    }
}

proof fn lemma_str_lt_irrefl(a: Seq<char>)
    ensures
        !str_lt(a, a),
    decreases a.len(),
{
    if a.len() > 0 {
        lemma_str_lt_irrefl(a.skip(1));
    }
}

/// Inserting behind a scanned prefix whose keys all come before `k` splits
/// into the prefix and an insertion into the remainder.
proof fn lemma_sorted_insert_split(
    ps: Seq<(Seq<char>, Seq<char>)>,
    k: Seq<char>,
    v: Seq<char>,
    i: int,
)
    requires
        0 <= i <= ps.len(),
        forall|t: int| 0 <= t < i ==> str_lt(#[trigger] ps[t].0, k),
    ensures
        sorted_insert(ps, k, v) == ps.take(i) + sorted_insert(ps.skip(i), k, v),
    decreases i,
{
    if i == 0 {
        assert(ps.skip(0) =~= ps);
        assert(ps.take(0) + sorted_insert(ps, k, v) =~= sorted_insert(ps, k, v));
    } else {
        lemma_str_lt_irrefl(ps[0].0);
        assert(!str_lt(k, ps[0].0) && k != ps[0].0) by {
            if str_lt(k, ps[0].0) {
                lemma_str_lt_trans(ps[0].0, k, ps[0].0);
            }
        }
        assert(sorted_insert(ps, k, v) == seq![ps[0]] + sorted_insert(ps.skip(1), k, v));
        assert(forall|t: int|
            0 <= t < i - 1 ==> str_lt(#[trigger] ps.skip(1)[t].0, k));
        lemma_sorted_insert_split(ps.skip(1), k, v, i - 1);
        assert(ps.skip(1).take(i - 1) =~= ps.take(i).skip(1));
        assert(ps.skip(1).skip(i - 1) =~= ps.skip(i));
        assert(seq![ps[0]] + (ps.take(i).skip(1) + sorted_insert(ps.skip(i), k, v)) =~= ps.take(i)
            + sorted_insert(ps.skip(i), k, v));
    }
}

/// Inserts `(key, value)` into the key-sorted property vector; an entry with
/// an equal key is overwritten.
fn insert_prop(props: &mut Vec<(String, String)>, key: String, value: String)
    ensures
        pview(final(props)@) == sorted_insert(pview(old(props)@), key@, value@),
{
    let ghost ops = pview(props@);
    let mut i: usize = 0;
    loop
        invariant
            i <= props.len(),
            props@ == old(props)@,
            ops == pview(props@),
            forall|t: int| 0 <= t < i ==> str_lt(#[trigger] ops[t].0, key@),
        ensures
            i <= props.len(),
            props@ == old(props)@,
            forall|t: int| 0 <= t < i ==> str_lt(#[trigger] ops[t].0, key@),
            i < props.len() ==> !str_lt(ops[i as int].0, key@),
        decreases props.len() - i,
    {
        if i >= props.len() {
            break;
        }
        if !str_less(props[i].0.as_str(), key.as_str()) {
            break;
        }
        i = i + 1;
    }
    proof {
        lemma_sorted_insert_split(ops, key@, value@, i as int);
    }
    let ghost tail = ops.skip(i as int);
    if i < props.len() {
        let same = props[i].0 == key;
        if same {
            proof {
                lemma_str_lt_irrefl(tail[0].0);
                assert(tail[0] == ops[i as int]);
                assert(sorted_insert(tail, key@, value@) == seq![(key@, value@)] + tail.skip(1));
            }
            props.set(i, (key, value));
            proof {
                assert(pview(props@) =~= ops.take(i as int) + (seq![(key@, value@)] + tail.skip(
                    1,
                )));
            }
        } else {
            proof {
                assert(tail[0] == ops[i as int]);
                lemma_str_lt_trichotomy(key@, tail[0].0);
                assert(str_lt(key@, tail[0].0));
                assert(sorted_insert(tail, key@, value@) == seq![(key@, value@)] + tail);
            }
            props.insert(i, (key, value));
            proof {
                assert(pview(props@) =~= ops.take(i as int) + (seq![(key@, value@)] + tail));
            }
        }
    } else {
        proof {
            assert(tail =~= Seq::<(Seq<char>, Seq<char>)>::empty());
            assert(sorted_insert(tail, key@, value@) == seq![(key@, value@)]);
        }
        props.push((key, value));
        proof {
            assert(pview(props@) =~= ops.take(i as int) + seq![(key@, value@)]);
        }
    }
}

/// Whether `a` comes strictly before `b` in lexicographic order.
fn str_less(a: &str, b: &str) -> (r: bool)
    ensures
        r == str_lt(a@, b@),
{
    let alen = a.unicode_len();
    let blen = b.unicode_len();
    let mut i: usize = 0;
    proof {
        assert(a@.skip(0) =~= a@);
        assert(b@.skip(0) =~= b@);
    }
    loop
        invariant
            i <= alen,
            i <= blen,
            alen == a@.len(),
            blen == b@.len(),
            str_lt(a@, b@) == str_lt(a@.skip(i as int), b@.skip(i as int)),
        decreases alen - i,
    {
        if i >= blen {
            return false;
        }
        if i >= alen {
            return true;
        }
        let ca = a.get_char(i);
        let cb = b.get_char(i);
        if ca != cb {
            assert(a@.skip(i as int)[0] == ca && b@.skip(i as int)[0] == cb);
            return ca < cb;
        }
        proof {
            assert(a@.skip(i as int)[0] == ca && b@.skip(i as int)[0] == cb);
            assert(a@.skip(i as int).skip(1) =~= a@.skip(i + 1));
            assert(b@.skip(i as int).skip(1) =~= b@.skip(i + 1));
        }
        i = i + 1;
    }
}

} // verus!
