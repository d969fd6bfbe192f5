use vstd::prelude::*;

verus! {

/// Number of occurrences of `c` in `s`.
pub open spec fn count_of(s: Seq<char>, c: char) -> nat
    decreases s.len(),
{
    if s.len() == 0 {
        0
    } else {
        count_of(s.drop_last(), c) + (if s.last() == c {
            1nat
        } else {
            0nat
        })
    }
}

/// The distinct symbols of `s`, in order of first appearance.
pub open spec fn symbols_in_order(s: Seq<char>) -> Seq<char>
    decreases s.len(),
{
    if s.len() == 0 {
        Seq::empty()
    } else {
        let rest = symbols_in_order(s.drop_last());
        if rest.contains(s.last()) {
            rest
        } else {
            rest.push(s.last())
        }
    }
}

/// One (symbol, count) entry per distinct symbol of `s`, in order of first
/// appearance.
pub open spec fn spec_frequencies(s: Seq<char>) -> Seq<(char, usize)> {
    symbols_in_order(s).map(|i: int, c: char| (c, count_of(s, c) as usize))
}

/// The symbol stream of a sequence of input lines: their concatenation.
pub open spec fn concat_lines(lines: Seq<Seq<char>>) -> Seq<char>
    decreases lines.len(),
{
    if lines.len() == 0 {
        Seq::empty()
    } else {
        concat_lines(lines.drop_last()) + lines.last()
    }
}

pub proof fn lemma_count_of_le_len(s: Seq<char>, c: char)
    ensures
        count_of(s, c) <= s.len(),
    decreases s.len(),
{
    if s.len() > 0 {
        lemma_count_of_le_len(s.drop_last(), c);
    }
}

pub proof fn lemma_count_of_zero(s: Seq<char>, c: char)
    ensures
        count_of(s, c) == 0 <==> !s.contains(c),
    decreases s.len(),
{
    if s.len() > 0 {
        lemma_count_of_zero(s.drop_last(), c);
        if s.contains(c) && s.last() != c {
            let i = choose|i: int| 0 <= i < s.len() && s[i] == c;
            assert(s.drop_last()[i] == c);
        }
        if s.drop_last().contains(c) {
            let i = choose|i: int| 0 <= i < s.drop_last().len() && s.drop_last()[i] == c;
            assert(s[i] == c);
        }
    }
}

pub proof fn lemma_count_of_push(s: Seq<char>, d: char, c: char)
    ensures
        count_of(s.push(d), c) == count_of(s, c) + (if d == c {
            1nat
        } else {
            0nat
        }),
{
    assert(s.push(d).drop_last() =~= s);
}

pub proof fn lemma_contains_drop_last(s: Seq<char>, c: char)
    requires
        s.len() > 0,
    ensures
        s.contains(c) <==> (s.drop_last().contains(c) || s.last() == c),
{
    if s.contains(c) {
        let i = choose|i: int| 0 <= i < s.len() && s[i] == c;
        if i < s.len() - 1 {
            assert(s.drop_last()[i] == c);
        }
    }
    if s.drop_last().contains(c) {
        let i = choose|i: int| 0 <= i < s.drop_last().len() && s.drop_last()[i] == c;
        assert(s[i] == c);
    }
    if s.last() == c {
        assert(s[s.len() - 1] == c);
    }
}

pub proof fn lemma_contains_push(s: Seq<char>, x: char, c: char)
    ensures
        s.push(x).contains(c) <==> (s.contains(c) || x == c),
{
    if s.push(x).contains(c) {
        let i = choose|i: int| 0 <= i < s.push(x).len() && s.push(x)[i] == c;
        if i < s.len() {
            assert(s[i] == c);
        }
    }
    if s.contains(c) {
        let i = choose|i: int| 0 <= i < s.len() && s[i] == c;
        assert(s.push(x)[i] == c);
    }
    if x == c {
        assert(s.push(x)[s.len() as int] == c);
    }
}

pub proof fn lemma_symbols_in_order_contains(s: Seq<char>, c: char)
    ensures
        symbols_in_order(s).contains(c) <==> s.contains(c),
    decreases s.len(),
{
    if s.len() > 0 {
        lemma_symbols_in_order_contains(s.drop_last(), c);
        lemma_contains_drop_last(s, c);
        let rest = symbols_in_order(s.drop_last());
        if !rest.contains(s.last()) {
            lemma_contains_push(rest, s.last(), c);
        } else {
            lemma_symbols_in_order_contains(s.drop_last(), s.last());
        }
    }
}

pub proof fn lemma_symbols_in_order_no_dup(s: Seq<char>)
    ensures
        forall|i: int, j: int|
            0 <= i < j < symbols_in_order(s).len() ==> #[trigger] symbols_in_order(s)[i]
                != #[trigger] symbols_in_order(s)[j],
    decreases s.len(),
{
    if s.len() > 0 {
        lemma_symbols_in_order_no_dup(s.drop_last());
        let rest = symbols_in_order(s.drop_last());
        if !rest.contains(s.last()) {
            assert forall|i: int, j: int|
                0 <= i < j < rest.push(s.last()).len() implies #[trigger] rest.push(s.last())[i]
                != #[trigger] rest.push(s.last())[j] by {
                if j == rest.len() {
                    assert(rest.push(s.last())[i] == rest[i]);
                    assert(rest.contains(rest[i]));
                }
            }
        }
    }
}

/// Whether some entry of `t` carries the symbol `c`.
pub open spec fn table_has_key(t: Seq<(char, usize)>, c: char) -> bool {
    exists|i: int| 0 <= i < t.len() && (#[trigger] t[i]).0 == c
}

pub proof fn lemma_frequencies_has_key(s: Seq<char>, c: char)
    ensures
        table_has_key(spec_frequencies(s), c) <==> s.contains(c),
{
    lemma_symbols_in_order_contains(s, c);
    let f = spec_frequencies(s);
    let sio = symbols_in_order(s);
    if sio.contains(c) {
        let i = choose|i: int| 0 <= i < sio.len() && sio[i] == c;
        assert(f[i].0 == c);
    }
    if table_has_key(f, c) {
        let i = choose|i: int| 0 <= i < f.len() && f[i].0 == c;
        assert(sio[i] == c);
        assert(sio.contains(c));
    }
}

/// How one more symbol changes the frequency entries: a fresh symbol is
/// appended with count one; a seen symbol has its count raised by one in
/// place.
pub proof fn lemma_frequencies_push(s: Seq<char>, c: char)
    requires
        s.len() + 1 <= usize::MAX,
    ensures
        !s.contains(c) ==> spec_frequencies(s.push(c)) == spec_frequencies(s).push(
            (c, 1usize),
        ),
        s.contains(c) ==> {
            &&& spec_frequencies(s.push(c)).len() == spec_frequencies(s).len()
            &&& forall|j: int|
                0 <= j < spec_frequencies(s).len() ==> #[trigger] spec_frequencies(s.push(c))[j]
                    == (if spec_frequencies(s)[j].0 == c {
                    (c, (spec_frequencies(s)[j].1 + 1) as usize)
                } else {
                    spec_frequencies(s)[j]
                })
        },
{
    let s2 = s.push(c);
    assert(s2.drop_last() =~= s);
    let sio = symbols_in_order(s);
    let sio2 = symbols_in_order(s2);
    lemma_symbols_in_order_contains(s, c);
    assert forall|j: int| 0 <= j < sio.len() implies count_of(s2, sio[j]) == count_of(s, sio[j])
        + (if c == sio[j] {
        1nat
    } else {
        0nat
    }) by {
        lemma_count_of_push(s, c, sio[j]);
    }
    assert forall|j: int| 0 <= j < sio.len() implies count_of(s, sio[j]) <= s.len() by {
        lemma_count_of_le_len(s, sio[j]);
    }
    if !s.contains(c) {
        assert(sio2 == sio.push(c));
        lemma_count_of_push(s, c, c);
        lemma_count_of_zero(s, c);
        assert(spec_frequencies(s2) =~= spec_frequencies(s).push((c, 1usize)));
    } else {
        assert(sio2 == sio);
        assert(spec_frequencies(s2).len() == spec_frequencies(s).len());
    }
}

pub proof fn lemma_concat_take_succ(lines: Seq<Seq<char>>, k: int)
    requires
        0 <= k < lines.len(),
    ensures
        concat_lines(lines.take(k + 1)) == concat_lines(lines.take(k)) + lines[k],
{
    assert(lines.take(k + 1).drop_last() =~= lines.take(k));
    assert(lines.take(k + 1).last() == lines[k]);
}

pub proof fn lemma_concat_take_len(lines: Seq<Seq<char>>, k: int)
    requires
        0 <= k <= lines.len(),
    ensures
        concat_lines(lines.take(k)).len() <= concat_lines(lines).len(),
    decreases lines.len() - k,
{
    if k == lines.len() {
        assert(lines.take(k) =~= lines);
    } else {
        lemma_concat_take_succ(lines, k);
        lemma_concat_take_len(lines, k + 1);
    }
}

/// The sum of the counts of all entries.
pub open spec fn sum_counts(entries: Seq<(char, usize)>) -> int
    decreases entries.len(),
{
    if entries.len() == 0 {
        0
    } else {
        sum_counts(entries.drop_last()) + entries.last().1
    }
}

pub proof fn lemma_sum_counts_update(entries: Seq<(char, usize)>, i: int, e: (char, usize))
    requires
        0 <= i < entries.len(),
    ensures
        sum_counts(entries.update(i, e)) == sum_counts(entries) - entries[i].1 + e.1,
    decreases entries.len(),
{
    if i == entries.len() - 1 {
        assert(entries.update(i, e).drop_last() =~= entries.drop_last());
        assert(entries.update(i, e).last() == e);
    } else {
        assert(entries.update(i, e).drop_last() =~= entries.drop_last().update(i, e));
        assert(entries.update(i, e).last() == entries.last());
        lemma_sum_counts_update(entries.drop_last(), i, e);
    }
}

/// The counts of the frequency entries add up to the length of the stream.
pub proof fn lemma_sum_frequencies(s: Seq<char>)
    requires
        s.len() <= usize::MAX,
    ensures
        sum_counts(spec_frequencies(s)) == s.len(),
    decreases s.len(),
{
    if s.len() == 0 {
        assert(spec_frequencies(s).len() == 0);
    } else {
        let s0 = s.drop_last();
        let c = s.last();
        lemma_sum_frequencies(s0);
        lemma_frequencies_push(s0, c);
        assert(s0.push(c) =~= s);
        let f = spec_frequencies(s0);
        let f2 = spec_frequencies(s);
        lemma_contains_drop_last(s, c);
        if s0.contains(c) {
            lemma_frequencies_has_key(s0, c);
            let i = choose|i: int| 0 <= i < f.len() && (#[trigger] f[i]).0 == c;
            lemma_symbols_in_order_no_dup(s0);
            lemma_count_of_le_len(s0, c);
            let e = (c, (f[i].1 + 1) as usize);
            assert forall|j: int| 0 <= j < f.len() implies #[trigger] f2[j] == f.update(i, e)[j] by {
                if j != i {
                    if j < i {
                        assert(symbols_in_order(s0)[j] != symbols_in_order(s0)[i]);
                    } else {
                        assert(symbols_in_order(s0)[i] != symbols_in_order(s0)[j]);
                    }
                    assert(f[j].0 != c);
                }
            }
            assert(f2 =~= f.update(i, e));
            lemma_sum_counts_update(f, i, e);
        } else {
            assert(f2 == f.push((c, 1usize)));
            assert(f2.drop_last() =~= f);
        }
    }
}

/// A mapping from symbols to occurrence counts, kept in order of first
/// appearance; built once by `build_occurence_map`, read-only afterward.
pub struct FrequencyTable {
    pub entries: Vec<(char, usize)>,
}

impl View for FrequencyTable {
    type V = Seq<(char, usize)>;

    open spec fn view(&self) -> Seq<(char, usize)> {
        self.entries@
    }
}

impl FrequencyTable {
    pub fn new() -> (t: FrequencyTable)
        ensures
            t@ == Seq::<(char, usize)>::empty(),
    {
        FrequencyTable { entries: Vec::new() }
    }

    pub fn len(&self) -> (n: usize)
        ensures
            n == self@.len(),
    {
        self.entries.len()
    }

    /// Raises the count of `letter` by one, appending a fresh entry with count
    /// one if the symbol has not been seen yet.
    pub fn bump(&mut self, letter: char)
        requires
            forall|i: int, j: int|
                0 <= i < j < old(self)@.len() ==> (#[trigger] old(self)@[i]).0 != (
                #[trigger] old(self)@[j]).0,
            forall|i: int|
                0 <= i < old(self)@.len() && (#[trigger] old(self)@[i]).0 == letter ==> old(
                    self,
                )@[i].1 < usize::MAX,
        ensures
            table_has_key(old(self)@, letter) ==> {
                &&& final(self)@.len() == old(self)@.len()
                &&& forall|j: int|
                    0 <= j < old(self)@.len() ==> #[trigger] final(self)@[j] == (if old(
                        self,
                    )@[j].0 == letter {
                        (letter, (old(self)@[j].1 + 1) as usize)
                    } else {
                        old(self)@[j]
                    })
            },
            !table_has_key(old(self)@, letter) ==> final(self)@ == old(self)@.push(
                (letter, 1usize),
            ),
    {
        let n = self.entries.len();
        let mut i: usize = 0;
        while i < n
            invariant
                0 <= i <= n,
                n == self@.len(),
                self@ == old(self)@,
                forall|j: int| 0 <= j < i ==> (#[trigger] self@[j]).0 != letter,
                forall|a: int, b: int|
                    0 <= a < b < old(self)@.len() ==> (#[trigger] old(self)@[a]).0 != (
                    #[trigger] old(self)@[b]).0,
                forall|a: int|
                    0 <= a < old(self)@.len() && (#[trigger] old(self)@[a]).0 == letter ==> old(
                        self,
                    )@[a].1 < usize::MAX,
            decreases n - i,
        {
            if self.entries[i].0 == letter {
                proof {
                    assert(old(self)@[i as int].0 == letter);
                    assert(old(self)@[i as int].1 < usize::MAX);
                    assert(table_has_key(old(self)@, letter));
                }
                let count = self.entries[i].1;
                self.entries.set(i, (letter, count + 1));
                proof {
                    assert forall|j: int| 0 <= j < old(self)@.len() implies #[trigger] self@[j]
                        == (if old(self)@[j].0 == letter {
                        (letter, (old(self)@[j].1 + 1) as usize)
                    } else {
                        old(self)@[j]
                    }) by {
                        if j != i {
                            assert(self@[j] == old(self)@[j]);
                            if j < i as int {
                                assert(old(self)@[j].0 != old(self)@[i as int].0);
                            } else {
                                assert(old(self)@[i as int].0 != old(self)@[j].0);
                            }
                        }
                    }
                }
                return ;
            }
            i = i + 1;
        }
        self.entries.push((letter, 1));
    }

    /// The count recorded for `letter`, if any entry carries it.
    pub fn get(&self, letter: char) -> (r: Option<usize>)
        ensures
            match r {
                Some(n) => exists|i: int|
                    0 <= i < self@.len() && #[trigger] self@[i] == (letter, n),
                None => !table_has_key(self@, letter),
            },
    {
        let n = self.entries.len();
        let mut i: usize = 0;
        while i < n
            invariant
                0 <= i <= n,
                n == self@.len(),
                forall|j: int| 0 <= j < i ==> (#[trigger] self@[j]).0 != letter,
            decreases n - i,
        {
            if self.entries[i].0 == letter {
                return Some(self.entries[i].1);
            }
            i = i + 1;
        }
        None
    }
}

/// Adds every symbol of `s` to the table; `prior` is the stream already
/// counted.
pub(crate) fn tally_str(table: &mut FrequencyTable, s: &str, Ghost(prior): Ghost<Seq<char>>)
    requires
        old(table)@ == spec_frequencies(prior),
        prior.len() + s@.len() <= usize::MAX,
    ensures
        final(table)@ == spec_frequencies(prior + s@),
{
    let n = s.unicode_len();
    let mut ci: usize = 0;
    while ci < n
        invariant
            0 <= ci <= n,
            n == s@.len(),
            prior.len() + s@.len() <= usize::MAX,
            table@ == spec_frequencies(prior + s@.take(ci as int)),
        decreases n - ci,
    {
        let c = s.get_char(ci);
        let ghost cur = prior + s@.take(ci as int);
        proof {
            lemma_symbols_in_order_no_dup(cur);
            lemma_frequencies_has_key(cur, c);
            lemma_frequencies_push(cur, c);
            lemma_count_of_le_len(cur, c);
            assert(forall|i: int, j: int|
                0 <= i < j < table@.len() ==> (#[trigger] table@[i]).0 != (
                #[trigger] table@[j]).0);
            assert forall|i: int|
                0 <= i < table@.len() && (#[trigger] table@[i]).0 == c implies table@[i].1
                < usize::MAX by {
                lemma_count_of_le_len(cur, table@[i].0);
            }
        }
        table.bump(c);
        proof {
            assert(cur.push(c) =~= prior + s@.take(ci + 1));
            if cur.contains(c) {
                assert(table@ =~= spec_frequencies(cur.push(c)));
            }
        }
        ci = ci + 1;
    }
    proof {
        assert(s@.take(n as int) =~= s@);
    }
}

/// Scans the input lines once and produces the table of per-symbol occurrence
/// counts for their concatenation.
pub fn build_occurence_map(lines: &Vec<String>) -> (table: FrequencyTable)
    requires
        concat_lines(lines.deep_view()).len() <= usize::MAX,
    ensures
        table@ == spec_frequencies(concat_lines(lines.deep_view())),
{
    let ghost all = lines.deep_view();
    let mut table = FrequencyTable::new();
    let mut li: usize = 0;
    proof {
        assert(all.take(0) =~= Seq::<Seq<char>>::empty());
        assert(table@ =~= spec_frequencies(concat_lines(all.take(0))));
    }
    while li < lines.len()
        invariant
            0 <= li <= lines@.len(),
            all == lines.deep_view(),
            concat_lines(all).len() <= usize::MAX,
            table@ == spec_frequencies(concat_lines(all.take(li as int))),
        decreases lines@.len() - li,
    {
        let line: &String = &lines[li];
        proof {
            assert(all[li as int] == line@);
            lemma_concat_take_succ(all, li as int);
            lemma_concat_take_len(all, li + 1);
        }
        tally_str(&mut table, line.as_str(), Ghost(concat_lines(all.take(li as int))));
        li = li + 1;
    }
    proof {
        assert(all.take(lines@.len() as int) =~= all);
    }
    table
}

} // verus!
