//! Query expressions: search keys joined by `+` (union), `-` (difference)
//! and `*` (intersection), applied strictly from left to right.
use vstd::prelude::*;
use crate::entry::{key_compiles, MatchCondition, MemoEntryView};
use crate::error::MemoError;
use crate::search::{
    difference_entries, intersection_entries, matching_entries, union_entries, Memo, MemoSearch,
};
use crate::text::{char_str, trim_white, trim_white_text};

verus! {

/// An operator of a query expression.
#[derive(Debug, Clone, Copy, PartialEq, Eq, Structural)]
pub enum QueryOp {
    /// `+`
    Union,
    /// `-`
    Difference,
    /// `*`
    Intersection,
}

pub open spec fn op_of(c: char) -> Option<QueryOp> {
    if c == '+' {
        Some(QueryOp::Union)
    } else if c == '-' {
        Some(QueryOp::Difference)
    } else if c == '*' {
        Some(QueryOp::Intersection)
    } else {
        None
    }
}

/// The first position at or after `i` that does not hold `c`, or the length.
pub open spec fn skip_char(s: Seq<char>, c: char, i: int) -> int
    decreases s.len() - i,
{
    if 0 <= i < s.len() && s[i] == c {
        skip_char(s, c, i + 1)
    } else {
        i
    }
}

/// The end of `s.subrange(0, j)` once trailing `c` are dropped.
pub open spec fn back_char(s: Seq<char>, c: char, j: int) -> int
    decreases j,
{
    if 0 < j <= s.len() && s[j - 1] == c {
        back_char(s, c, j - 1)
    } else {
        j
    }
}

/// `s` without leading and trailing `c`.
pub open spec fn trim_char(s: Seq<char>, c: char) -> Seq<char> {
    let a = skip_char(s, c, 0);
    if a >= s.len() {
        Seq::empty()
    } else {
        s.subrange(a, back_char(s, c, s.len() as int))
    }
}

/// A query with its decorating operators trimmed: `+` from both ends, then
/// `-`, then `*`.
pub open spec fn trim_query(q: Seq<char>) -> Seq<char> {
    trim_char(trim_char(trim_char(q, '+'), '-'), '*')
}

/// The pieces of `s` between operators, untrimmed, and the operators in
/// order; there is always one piece more than operators.
pub open spec fn split_query(s: Seq<char>) -> (Seq<Seq<char>>, Seq<QueryOp>)
    decreases s.len(),
{
    if s.len() == 0 {
        (seq![Seq::<char>::empty()], Seq::empty())
    } else {
        let (keys, ops) = split_query(s.drop_last());
        match op_of(s.last()) {
            Some(op) => (keys.push(Seq::empty()), ops.push(op)),
            None => (keys.update(keys.len() - 1, keys.last().push(s.last())), ops),
        }
    }
}

/// The keys of a query, each trimmed of white space.
pub open spec fn query_keys(q: Seq<char>) -> Seq<Seq<char>> {
    split_query(trim_query(q)).0.map_values(|k: Seq<char>| trim_white(k))
}

/// The operators of a query, in order.
pub open spec fn query_ops(q: Seq<char>) -> Seq<QueryOp> {
    split_query(trim_query(q)).1
}

/// `op` applied to `a` and `b`.
pub open spec fn apply_op(op: QueryOp, a: Seq<MemoEntryView>, b: Seq<MemoEntryView>) -> Seq<
    MemoEntryView,
> {
    match op {
        QueryOp::Union => union_entries(a, b),
        QueryOp::Difference => difference_entries(a, b),
        QueryOp::Intersection => intersection_entries(a, b),
    }
}

/// The operators folded over the sets from the left: `a+b-c` is `(a ∪ b) − c`.
pub open spec fn fold_ops(sets: Seq<Seq<MemoEntryView>>, ops: Seq<QueryOp>) -> Seq<MemoEntryView>
    decreases ops.len(),
{
    if ops.len() == 0 {
        sets[0]
    } else {
        apply_op(ops.last(), fold_ops(sets.drop_last(), ops.drop_last()), sets.last())
    }
}

/// The entries each key of the query selects, searched on tags, title and body.
pub open spec fn key_sets(
    entries: Seq<MemoEntryView>,
    keys: Seq<Seq<char>>,
    condition: MatchCondition,
) -> Seq<Seq<MemoEntryView>> {
    keys.map_values(|k: Seq<char>| matching_entries(entries, k, false, condition))
}

/// Whether every key of the query compiles.
pub open spec fn query_compiles(q: Seq<char>, condition: MatchCondition) -> bool {
    forall|i: int|
        0 <= i < query_keys(q).len() ==> key_compiles(#[trigger] query_keys(q)[i], condition)
}

/// What a query selects from `entries`: nothing for a query that is empty
/// once trimmed.
pub open spec fn query_entries(
    entries: Seq<MemoEntryView>,
    q: Seq<char>,
    condition: MatchCondition,
) -> Seq<MemoEntryView> {
    if trim_query(q).len() == 0 {
        Seq::empty()
    } else {
        fold_ops(key_sets(entries, query_keys(q), condition), query_ops(q))
    }
}

pub proof fn lemma_split_query_len(s: Seq<char>)
    ensures
        split_query(s).0.len() == split_query(s).1.len() + 1,
    decreases s.len(),
{
    if s.len() > 0 {
        lemma_split_query_len(s.drop_last());
    }
}

/// Whether `s` holds an operator character.
pub open spec fn has_op(s: Seq<char>) -> bool {
    exists|i: int| 0 <= i < s.len() && op_of(s[i]) is Some
}

proof fn lemma_no_op_prefix(b: Seq<char>)
    requires
        b.len() > 0,
        !has_op(b),
    ensures
        !has_op(b.drop_last()),
        op_of(b.last()) is None,
{
    if has_op(b.drop_last()) {
        let i = choose|i: int|
            0 <= i < b.drop_last().len() && op_of(b.drop_last()[i]) is Some;
        assert(b[i] == b.drop_last()[i]);
    }
    if op_of(b.last()) is Some {
        assert(op_of(b[b.len() - 1]) is Some);
    }
}

/// Appending text without operators extends the last key.
proof fn lemma_split_query_plain(a: Seq<char>, b: Seq<char>)
    requires
        !has_op(b),
    ensures
        split_query(a + b) == (
            split_query(a).0.update(split_query(a).0.len() - 1, split_query(a).0.last() + b),
            split_query(a).1,
        ),
    decreases b.len(),
{
    lemma_split_query_len(a);
    let p = split_query(a).0;
    if b.len() == 0 {
        assert(a + b =~= a);
        assert(p.update(p.len() - 1, p.last() + b) =~= p);
    } else {
        let bd = b.drop_last();
        lemma_no_op_prefix(b);
        lemma_split_query_plain(a, bd);
        assert((a + b).drop_last() =~= a + bd);
        assert((a + b).last() == b.last());
        let q = split_query(a + bd).0;
        assert(q.len() == p.len());
        assert(q.last() == p.last() + bd);
        assert((p.last() + bd).push(b.last()) =~= p.last() + b);
        assert(split_query(a + b).0 =~= p.update(p.len() - 1, p.last() + b));
    }
}

/// `a`, the operator `c` and then `b` without operators: `b` becomes a new
/// last key and `c`'s operator the last operator.
proof fn lemma_split_query_field(a: Seq<char>, c: char, b: Seq<char>)
    requires
        op_of(c) is Some,
        !has_op(b),
    ensures
        split_query(a.push(c) + b) == (split_query(a).0.push(b), split_query(a).1.push(
            op_of(c)->0,
        )),
{
    assert(a.push(c).drop_last() =~= a);
    lemma_split_query_plain(a.push(c), b);
    let p = split_query(a).0;
    assert(Seq::<char>::empty() + b =~= b);
    assert(p.push(Seq::empty()).update(p.len() as int, b) =~= p.push(b));
}

proof fn lemma_trim_char_noop(s: Seq<char>, c: char)
    requires
        s.len() > 0,
        s[0] != c,
        s.last() != c,
    ensures
        trim_char(s, c) == s,
{
    assert(s.subrange(0, s.len() as int) =~= s);
}

/// A query `a+b-c` of three plain keys is evaluated from the left, as
/// `(a ∪ b) − c`, each key searched on tags, title and body.
pub proof fn lemma_query_left_to_right(
    entries: Seq<MemoEntryView>,
    a: Seq<char>,
    b: Seq<char>,
    c: Seq<char>,
    condition: MatchCondition,
)
    requires
        a.len() > 0,
        c.len() > 0,
        !has_op(a),
        !has_op(b),
        !has_op(c),
        trim_white(a) == a,
        trim_white(b) == b,
        trim_white(c) == c,
    ensures
        query_entries(entries, (a.push('+') + b).push('-') + c, condition) == difference_entries(
            union_entries(
                matching_entries(entries, a, false, condition),
                matching_entries(entries, b, false, condition),
            ),
            matching_entries(entries, c, false, condition),
        ),
{
    let ab = a.push('+') + b;
    let q = ab.push('-') + c;
    // The decorating operators leave the query as it is.
    if op_of(a[0]) is Some {
        assert(has_op(a));
    }
    if op_of(c.last()) is Some {
        assert(op_of(c[c.len() - 1]) is Some);
    }
    assert(q[0] == a[0]);
    assert(q.last() == c.last());
    lemma_trim_char_noop(q, '+');
    lemma_trim_char_noop(q, '-');
    lemma_trim_char_noop(q, '*');
    assert(trim_query(q) == q);
    // Its keys and operators.
    lemma_split_query_plain(Seq::empty(), a);
    assert(Seq::<char>::empty() + a =~= a);
    assert(seq![Seq::<char>::empty()].update(0, Seq::<char>::empty() + a) =~= seq![a]);
    lemma_split_query_field(a, '+', b);
    lemma_split_query_field(ab, '-', c);
    let keys = split_query(q).0;
    assert(keys =~= seq![a, b, c]);
    assert(split_query(q).1 =~= seq![QueryOp::Union, QueryOp::Difference]);
    assert(query_keys(q) =~= seq![a, b, c]);
    let sets = key_sets(entries, seq![a, b, c], condition);
    let ops = seq![QueryOp::Union, QueryOp::Difference];
    assert(sets.drop_last().drop_last() =~= seq![sets[0]]);
    assert(ops.drop_last().drop_last() =~= Seq::<QueryOp>::empty());
    assert(sets.len() == 3);
    assert(ops.drop_last().len() == 1 && ops.drop_last().last() == QueryOp::Union);
    assert(sets.drop_last().last() == sets[1]);
    assert(fold_ops(sets.drop_last().drop_last(), ops.drop_last().drop_last()) == sets[0]);
    assert(fold_ops(sets.drop_last(), ops.drop_last()) == union_entries(sets[0], sets[1]));
    assert(sets[0] == matching_entries(entries, a, false, condition));
    assert(sets[1] == matching_entries(entries, b, false, condition));
    assert(sets[2] == matching_entries(entries, c, false, condition));
}

pub fn op_of_char(c: char) -> (r: Option<QueryOp>)
    ensures
        r == op_of(c),
{
    if c == '+' {
        Some(QueryOp::Union)
    } else if c == '-' {
        Some(QueryOp::Difference)
    } else if c == '*' {
        Some(QueryOp::Intersection)
    } else {
        None
    }
}

/// `s` without leading and trailing `c`.
pub fn trim_char_text(s: &str, c: char) -> (r: &str)
    ensures
        r@ == trim_char(s@, c),
{
    let n = s.unicode_len();
    let mut a: usize = 0;
    while a < n && s.get_char(a) == c
        invariant
            a <= n,
            n == s@.len(),
            skip_char(s@, c, 0) == skip_char(s@, c, a as int),
        decreases n - a,
    {
        a += 1;
    }
    if a >= n {
        return s.substring_char(n, n);
    }
    let mut b: usize = n;
    while b > a && s.get_char(b - 1) == c
        invariant
            a < n,
            a < b <= n,
            n == s@.len(),
            s@[a as int] != c,
            back_char(s@, c, n as int) == back_char(s@, c, b as int),
        decreases b,
    {
        b -= 1;
    }
    s.substring_char(a, b)
}

/// The pieces and operators of `s`, as `split_query` states them.
pub fn split_query_text(s: &str) -> (r: (Vec<String>, Vec<QueryOp>))
    ensures
        r.0@.map_values(|k: String| k@) == split_query(s@).0,
        r.1@ == split_query(s@).1,
{
    let n = s.unicode_len();
    let mut done: Vec<String> = Vec::new();
    let mut ops: Vec<QueryOp> = Vec::new();
    let mut cur = String::new();
    let mut i: usize = 0;
    assert(done@.map_values(|k: String| k@).push(cur@) =~= split_query(s@.subrange(0, 0)).0);
    assert(ops@ =~= split_query(s@.subrange(0, 0)).1);
    while i < n
        invariant
            n == s@.len(),
            i <= n,
            done@.map_values(|k: String| k@).push(cur@) == split_query(s@.subrange(0, i as int)).0,
            ops@ == split_query(s@.subrange(0, i as int)).1,
        decreases n - i,
    {
        let ghost before = done@.map_values(|k: String| k@);
        let ghost prefix = s@.subrange(0, i as int);
        let ch = s.get_char(i);
        assert(s@.subrange(0, i + 1).drop_last() =~= prefix);
        assert(s@.subrange(0, i + 1).last() == ch);
        match op_of_char(ch) {
            Some(op) => {
                done.push(cur);
                ops.push(op);
                cur = String::new();
                assert(done@.map_values(|k: String| k@) =~= before.push(
                    split_query(prefix).0.last(),
                ));
                assert(done@.map_values(|k: String| k@).push(cur@) =~= split_query(
                    s@.subrange(0, i + 1),
                ).0);
            },
            None => {
                let ghost old_cur = cur@;
                cur.append(char_str(s, i));
                assert(cur@ =~= old_cur.push(ch));
                assert(done@.map_values(|k: String| k@) =~= before);
                assert(done@.map_values(|k: String| k@).push(cur@) =~= split_query(
                    s@.subrange(0, i + 1),
                ).0);
            },
        }
        i += 1;
    }
    assert(s@.subrange(0, n as int) =~= s@);
    let ghost before = done@.map_values(|k: String| k@);
    done.push(cur);
    assert(done@.map_values(|k: String| k@) =~= before.push(cur@));
    (done, ops)
}

/// `op` applied to `a` and `b`; fails with `InvalidValue` when the roots differ.
pub fn apply_query_op<'a>(op: QueryOp, a: &MemoSearch<'a>, b: &MemoSearch<'a>) -> (r: Result<
    MemoSearch<'a>,
    MemoError,
>)
    ensures
        r is Err <==> a@.root != b@.root,
        r matches Err(e) ==> e == MemoError::InvalidValue,
        r matches Ok(s) ==> s@.root == a@.root && s@.entries == apply_op(
            op,
            a@.entries,
            b@.entries,
        ),
{
    match op {
        QueryOp::Union => a.union(b),
        QueryOp::Difference => a.difference(b),
        QueryOp::Intersection => a.intersection(b),
    }
}

proof fn lemma_fold_step(sets: Seq<Seq<MemoEntryView>>, ops: Seq<QueryOp>, i: int)
    requires
        0 <= i < ops.len(),
        sets.len() == ops.len() + 1,
    ensures
        fold_ops(sets.subrange(0, i + 2), ops.subrange(0, i + 1)) == apply_op(
            ops[i],
            fold_ops(sets.subrange(0, i + 1), ops.subrange(0, i)),
            sets[i + 1],
        ),
{
    assert(sets.subrange(0, i + 2).drop_last() =~= sets.subrange(0, i + 1));
    assert(ops.subrange(0, i + 1).drop_last() =~= ops.subrange(0, i));
}

impl Memo {
    /// Evaluates a query expression such as `a+b-c*d` from left to right,
    /// each key searched on tags, title and body. A query that is empty once
    /// its decorating operators are trimmed selects nothing; an empty key,
    /// between two operators or after a last one, is searched as it stands,
    /// as an empty regular expression. Fails with `InvalidValue` when a key
    /// does not compile.
    pub fn query(&self, expr: &str, condition: MatchCondition) -> (r: Result<
        MemoSearch<'_>,
        MemoError,
    >)
        ensures
            r is Ok <==> (trim_query(expr@).len() == 0 || query_compiles(expr@, condition)),
            r matches Ok(s) ==> s@.root == self@.root && s@.entries == query_entries(
                self@.entries,
                expr@,
                condition,
            ),
            r matches Err(e) ==> e == MemoError::InvalidValue,
    {
        let t = trim_char_text(trim_char_text(trim_char_text(expr, '+'), '-'), '*');
        if t.unicode_len() == 0 {
            return Ok(self.new_search());
        }
        let (keys, ops) = split_query_text(t);
        proof {
            lemma_split_query_len(t@);
        }
        let ghost qkeys = query_keys(expr@);
        let ghost sets = key_sets(self@.entries, qkeys, condition);
        assert(keys@.len() == qkeys.len());
        assert(forall|j: int| 0 <= j < keys@.len() ==> #[trigger] qkeys[j] == trim_white(keys@[j]@))
            by {
            assert forall|j: int| 0 <= j < keys@.len() implies #[trigger] qkeys[j] == trim_white(
                keys@[j]@,
            ) by {
                assert(split_query(t@).0[j] == keys@.map_values(|k: String| k@)[j]);
            }
        }
        let first = match self.find(Some((trim_white_text(keys[0].as_str()), false, condition))) {
            Ok(s) => s,
            Err(e) => {
                assert(!key_compiles(qkeys[0], condition));
                return Err(e);
            },
        };
        let mut acc = first;
        let mut i: usize = 0;
        assert(sets.subrange(0, 1) =~= seq![sets[0]]);
        assert(fold_ops(sets.subrange(0, 1), ops@.subrange(0, 0)) == sets[0]);
        while i < ops.len()
            invariant
                keys@.len() == ops@.len() + 1,
                ops@ == query_ops(expr@),
                qkeys.len() == keys@.len(),
                sets == key_sets(self@.entries, qkeys, condition),
                qkeys == query_keys(expr@),
                forall|j: int|
                    0 <= j < keys@.len() ==> #[trigger] qkeys[j] == trim_white(keys@[j]@),
                i <= ops@.len(),
                acc@.root == self@.root,
                acc@.entries == fold_ops(sets.subrange(0, i + 1), ops@.subrange(0, i as int)),
                forall|j: int| 0 <= j <= i ==> key_compiles(#[trigger] qkeys[j], condition),
            decreases ops@.len() - i,
        {
            let next = match self.find(
                Some((trim_white_text(keys[i + 1].as_str()), false, condition)),
            ) {
                Ok(s) => s,
                Err(e) => {
                    assert(!key_compiles(qkeys[i + 1], condition));
                    return Err(e);
                },
            };
            proof {
                lemma_fold_step(sets, ops@, i as int);
            }
            acc = match apply_query_op(ops[i], &acc, &next) {
                Ok(s) => s,
                Err(e) => return Err(e),
            };
            i += 1;
        }
        assert(sets.subrange(0, i + 1) =~= sets);
        assert(ops@.subrange(0, i as int) =~= ops@);
        Ok(acc)
    }

    /// Runs a search as a command line asks for it: a tag filter, a query
    /// expression, both (their intersection), or neither (every entry).
    pub fn search(&self, tag: Option<&str>, keys: Option<&str>, condition: MatchCondition) -> (r:
        Result<MemoSearch<'_>, MemoError>)
        ensures
            r is Ok <==> (match tag {
                Some(t) => key_compiles(trim_white(t@), condition),
                None => true,
            } && match keys {
                Some(k) => trim_query(k@).len() == 0 || query_compiles(k@, condition),
                None => true,
            }),
            r matches Err(e) ==> e == MemoError::InvalidValue,
            r matches Ok(s) ==> s@.root == self@.root && s@.entries == match (tag, keys) {
                (Some(t), Some(k)) => intersection_entries(
                    matching_entries(self@.entries, trim_white(t@), true, condition),
                    query_entries(self@.entries, k@, condition),
                ),
                (Some(t), None) => matching_entries(
                    self@.entries,
                    trim_white(t@),
                    true,
                    condition,
                ),
                (None, Some(k)) => query_entries(self@.entries, k@, condition),
                (None, None) => self@.entries,
            },
    {
        match tag {
            Some(t) => {
                let tagged = match self.find(Some((trim_white_text(t), true, condition))) {
                    Ok(s) => s,
                    Err(e) => return Err(e),
                };
                match keys {
                    Some(k) => {
                        let selected = match self.query(k, condition) {
                            Ok(s) => s,
                            Err(e) => return Err(e),
                        };
                        tagged.intersection(&selected)
                    },
                    None => Ok(tagged),
                }
            },
            None => match keys {
                Some(k) => self.query(k, condition),
                None => self.find(None),
            },
        }
    }
}

} // verus!
