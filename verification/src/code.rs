use vstd::prelude::*;

use crate::freq::{
    lemma_frequencies_has_key, lemma_sum_frequencies, lemma_symbols_in_order_contains,
    lemma_symbols_in_order_no_dup, spec_frequencies, symbols_in_order, table_has_key, tally_str,
    FrequencyTable,
};
use crate::tree::{
    build_binary_heap, build_huffman_tree, lemma_build_tree_symbols, lemma_spec_leaves_props,
    lemma_total_occ_leaves, queue_inv, queue_symbols, spec_build_tree, spec_leaf, spec_leaves,
    total_occ, Node,
};

verus! {

/// A table with a single codeword.
pub open spec fn singleton_code(letter: char, codeword: Seq<char>) -> Map<char, Seq<char>> {
    map![letter => codeword]
}

/// The codeword table read off the leaves of `t`: each codeword is `prefix`
/// extended with one digit per step, '0' towards the left child and '1'
/// towards the right.
pub open spec fn spec_codes(t: Node, prefix: Seq<char>) -> Map<char, Seq<char>>
    decreases t,
{
    match t {
        Node::Leaf { letter, .. } => singleton_code(letter, prefix),
        Node::Internal { left, right, .. } => spec_codes(*left, prefix.push('0')).union_prefer_right(
            spec_codes(*right, prefix.push('1')),
        ),
    }
}

/// The codeword table of a whole tree. A lone leaf gets the codeword "0", so
/// that even a one-symbol alphabet has a non-empty encoding.
pub open spec fn table_of(t: Node) -> Map<char, Seq<char>> {
    match t {
        Node::Leaf { letter, .. } => singleton_code(letter, seq!['0']),
        Node::Internal { .. } => spec_codes(t, Seq::empty()),
    }
}

/// What the traversal records under a given accumulated path: the path-walk
/// codewords, except that a leaf reached with the empty path — the whole tree
/// for a one-symbol alphabet — is recorded under "0" rather than under the
/// empty string, which would be no encoding at all.
pub open spec fn emitted_codes(t: Node, prefix: Seq<char>) -> Map<char, Seq<char>> {
    if prefix.len() == 0 {
        table_of(t)
    } else {
        spec_codes(t, prefix)
    }
}

/// No codeword of the table is a prefix of another symbol's codeword.
pub open spec fn prefix_free(table: Map<char, Seq<char>>) -> bool {
    forall|a: char, b: char|
        table.dom().contains(a) && table.dom().contains(b) && a != b ==> !(
        #[trigger] table[a]).is_prefix_of(#[trigger] table[b])
}

pub proof fn lemma_codes_dom(t: Node, prefix: Seq<char>)
    ensures
        spec_codes(t, prefix).dom() == t.symbols(),
    decreases t,
{
    match t {
        Node::Leaf { letter, .. } => {
            assert(spec_codes(t, prefix).dom() =~= set![letter]);
        },
        Node::Internal { left, right, .. } => {
            lemma_codes_dom(*left, prefix.push('0'));
            lemma_codes_dom(*right, prefix.push('1'));
            assert(spec_codes(t, prefix).dom() =~= left.symbols().union(right.symbols()));
        },
    }
}

/// A codeword under prefix `p` is `p` followed by the codeword under the empty
/// prefix.
pub proof fn lemma_codes_shift(t: Node, p: Seq<char>)
    ensures
        forall|c: char|
            t.symbols().contains(c) ==> #[trigger] spec_codes(t, p)[c] == p + spec_codes(
                t,
                Seq::empty(),
            )[c],
    decreases t,
{
    match t {
        Node::Leaf { letter, .. } => {
            assert forall|c: char| t.symbols().contains(c) implies #[trigger] spec_codes(t, p)[c]
                == p + spec_codes(t, Seq::empty())[c] by {
                assert(c == letter);
                assert(spec_codes(t, p)[c] == p);
                assert(spec_codes(t, Seq::empty())[c] == Seq::<char>::empty());
                assert(p + Seq::<char>::empty() =~= p);
            }
        },
        Node::Internal { left, right, .. } => {
            lemma_codes_shift(*left, p.push('0'));
            lemma_codes_shift(*right, p.push('1'));
            lemma_codes_shift(*left, seq!['0']);
            lemma_codes_shift(*right, seq!['1']);
            lemma_codes_dom(*left, p.push('0'));
            lemma_codes_dom(*right, p.push('1'));
            lemma_codes_dom(*left, seq!['0']);
            lemma_codes_dom(*right, seq!['1']);
            assert forall|c: char| t.symbols().contains(c) implies #[trigger] spec_codes(t, p)[c]
                == p + spec_codes(t, Seq::empty())[c] by {
                if right.symbols().contains(c) {
                    assert(spec_codes(t, p)[c] == spec_codes(*right, p.push('1'))[c]);
                    assert(spec_codes(t, Seq::empty())[c] == spec_codes(*right, seq!['1'])[c]);
                    let x = spec_codes(*right, Seq::empty())[c];
                    assert(spec_codes(*right, p.push('1'))[c] == p.push('1') + x);
                    assert(spec_codes(*right, seq!['1'])[c] == seq!['1'] + x);
                    assert(p.push('1') + x =~= p + (seq!['1'] + x));
                } else {
                    assert(left.symbols().contains(c));
                    assert(spec_codes(t, p)[c] == spec_codes(*left, p.push('0'))[c]);
                    assert(spec_codes(t, Seq::empty())[c] == spec_codes(*left, seq!['0'])[c]);
                    let x = spec_codes(*left, Seq::empty())[c];
                    assert(spec_codes(*left, p.push('0'))[c] == p.push('0') + x);
                    assert(spec_codes(*left, seq!['0'])[c] == seq!['0'] + x);
                    assert(p.push('0') + x =~= p + (seq!['0'] + x));
                }
            }
        },
    }
}

/// Codewords of distinct symbols of a tree whose leaves carry distinct
/// symbols are never prefixes of one another: two leaves can only share a
/// prefix path if one lay below the other, and leaves have no children.
pub proof fn lemma_codes_prefix_free(t: Node, p: Seq<char>)
    requires
        t.distinct(),
    ensures
        prefix_free(spec_codes(t, p)),
    decreases t,
{
    let tbl = spec_codes(t, p);
    match t {
        Node::Leaf { letter, .. } => {
            lemma_codes_dom(t, p);
            assert forall|a: char, b: char|
                tbl.dom().contains(a) && tbl.dom().contains(b) && a != b implies !(
            #[trigger] tbl[a]).is_prefix_of(#[trigger] tbl[b]) by {
                assert(a == letter && b == letter);
            }
        },
        Node::Internal { left, right, .. } => {
            let p0 = p.push('0');
            let p1 = p.push('1');
            let lp = spec_codes(*left, p0);
            let rp = spec_codes(*right, p1);
            lemma_codes_prefix_free(*left, p0);
            lemma_codes_prefix_free(*right, p1);
            lemma_codes_dom(*left, p0);
            lemma_codes_dom(*right, p1);
            lemma_codes_shift(*left, p0);
            lemma_codes_shift(*right, p1);
            assert forall|a: char, b: char|
                tbl.dom().contains(a) && tbl.dom().contains(b) && a != b implies !(
            #[trigger] tbl[a]).is_prefix_of(#[trigger] tbl[b]) by {
                if right.symbols().contains(a) && right.symbols().contains(b) {
                    assert(tbl[a] == rp[a] && tbl[b] == rp[b]);
                } else if !right.symbols().contains(a) && !right.symbols().contains(b) {
                    assert(left.symbols().contains(a) && left.symbols().contains(b));
                    assert(tbl[a] == lp[a] && tbl[b] == lp[b]);
                } else {
                    let (la, lb) = if right.symbols().contains(b) {
                        (a, b)
                    } else {
                        (b, a)
                    };
                    assert(left.symbols().contains(la) && right.symbols().contains(lb));
                    assert(tbl[la] == lp[la] && tbl[lb] == rp[lb]);
                    let xa = spec_codes(*left, Seq::empty())[la];
                    let xb = spec_codes(*right, Seq::empty())[lb];
                    assert(tbl[la] == p0 + xa);
                    assert(tbl[lb] == p1 + xb);
                    assert(tbl[la].len() > p.len() && tbl[lb].len() > p.len());
                    assert(tbl[la][p.len() as int] == p0[p.len() as int]);
                    assert(tbl[lb][p.len() as int] == p1[p.len() as int]);
                    assert(p0[p.len() as int] == '0' && p1[p.len() as int] == '1');
                    if tbl[la].is_prefix_of(tbl[lb]) {
                        assert(tbl[la][p.len() as int] == tbl[lb].subrange(
                            0,
                            tbl[la].len() as int,
                        )[p.len() as int]);
                        assert(false);
                    }
                    if tbl[lb].is_prefix_of(tbl[la]) {
                        assert(tbl[lb][p.len() as int] == tbl[la].subrange(
                            0,
                            tbl[lb].len() as int,
                        )[p.len() as int]);
                        assert(false);
                    }
                }
            }
        },
    }
}

/// The codeword table of any tree with distinct leaf symbols is a prefix
/// code, and covers exactly the tree's symbols.
pub proof fn lemma_table_of_prefix_free(t: Node)
    requires
        t.distinct(),
    ensures
        prefix_free(table_of(t)),
        table_of(t).dom() == t.symbols(),
{
    match t {
        Node::Leaf { letter, .. } => {
            assert(table_of(t).dom() =~= set![letter]);
            assert forall|a: char, b: char|
                table_of(t).dom().contains(a) && table_of(t).dom().contains(b) && a != b implies !(
            #[trigger] table_of(t)[a]).is_prefix_of(#[trigger] table_of(t)[b]) by {
                assert(a == letter && b == letter);
            }
        },
        Node::Internal { .. } => {
            lemma_codes_prefix_free(t, Seq::empty());
            lemma_codes_dom(t, Seq::empty());
        },
    }
}

/// The mapping described by a sequence of (symbol, codeword) entries; a later
/// entry for the same symbol wins.
pub open spec fn map_of_entries(entries: Seq<(char, Seq<char>)>) -> Map<char, Seq<char>>
    decreases entries.len(),
{
    if entries.len() == 0 {
        Map::empty()
    } else {
        map_of_entries(entries.drop_last()).insert(entries.last().0, entries.last().1)
    }
}

/// A mapping from symbols to codewords; built once from a finished tree,
/// read-only afterward.
pub struct CodeTable {
    pub entries: Vec<(char, String)>,
}

impl View for CodeTable {
    type V = Map<char, Seq<char>>;

    open spec fn view(&self) -> Map<char, Seq<char>> {
        map_of_entries(self.entries.deep_view())
    }
}

impl CodeTable {
    pub fn new() -> (t: CodeTable)
        ensures
            t@ == Map::<char, Seq<char>>::empty(),
            t.entries@ == Seq::<(char, String)>::empty(),
    {
        let t = CodeTable { entries: Vec::new() };
        proof {
            assert(t.entries.deep_view().len() == 0);
        }
        t
    }

    pub fn len(&self) -> (n: usize)
        ensures
            n == self.entries@.len(),
    {
        self.entries.len()
    }

    pub fn insert(&mut self, letter: char, code: String)
        ensures
            final(self)@ == old(self)@.insert(letter, code@),
            final(self).entries@ == old(self).entries@.push((letter, code)),
    {
        let ghost code_view = code@;
        self.entries.push((letter, code));
        proof {
            assert(self.entries.deep_view().drop_last() =~= old(self).entries.deep_view());
            assert(self.entries.deep_view().last() == (letter, code_view));
        }
    }

    /// The codeword recorded for `letter`, if any entry carries it.
    pub fn get(&self, letter: char) -> (r: Option<String>)
        ensures
            match r {
                Some(code) => self@.dom().contains(letter) && code@ == self@[letter],
                None => !self@.dom().contains(letter),
            },
    {
        let ghost dv = self.entries.deep_view();
        let mut i: usize = self.entries.len();
        proof {
            assert(dv.take(i as int) =~= dv);
        }
        while i > 0
            invariant
                0 <= i <= self.entries@.len(),
                dv == self.entries.deep_view(),
                self@.dom().contains(letter) <==> map_of_entries(
                    dv.take(i as int),
                ).dom().contains(letter),
                self@.dom().contains(letter) ==> self@[letter] == map_of_entries(
                    dv.take(i as int),
                )[letter],
            decreases i,
        {
            i = i - 1;
            proof {
                assert(dv.take(i + 1).drop_last() =~= dv.take(i as int));
                assert(dv.take(i + 1).last() == dv[i as int]);
                assert(dv[i as int].0 == self.entries@[i as int].0);
                assert(dv[i as int].1 == self.entries@[i as int].1@);
            }
            let e = &self.entries[i];
            if e.0 == letter {
                return Some(e.1.clone());
            }
        }
        proof {
            assert(dv.take(0).len() == 0);
        }
        None
    }
}

/// Depth-first traversal that records, at each leaf, the path walked so far:
/// '0' for a step to the left child, '1' for a step to the right. A leaf met
/// with the empty path — a tree of one symbol — gets "0", never the empty
/// string.
pub fn get_encoding_map(node: &Node, current_encoding: String, chars: &mut CodeTable)
    ensures
        final(chars)@ == old(chars)@.union_prefer_right(emitted_codes(*node, current_encoding@)),
    decreases *node,
{
    let ghost enc = current_encoding@;
    match node {
        Node::Leaf { letter, .. } => {
            if current_encoding.as_str().is_empty() {
                let mut zero = String::new();
                zero.append("0");
                proof {
                    reveal_strlit("0");
                    assert(zero@ =~= seq!['0']);
                }
                chars.insert(*letter, zero);
                proof {
                    assert(chars@ =~= old(chars)@.union_prefer_right(
                        singleton_code(*letter, seq!['0']),
                    ));
                }
            } else {
                chars.insert(*letter, current_encoding);
                proof {
                    assert(chars@ =~= old(chars)@.union_prefer_right(
                        singleton_code(*letter, enc),
                    ));
                }
            }
        },
        Node::Internal { left, right, .. } => {
            let mut left_encoding = current_encoding.clone();
            left_encoding.append("0");
            let mut right_encoding = current_encoding;
            right_encoding.append("1");
            proof {
                reveal_strlit("0");
                reveal_strlit("1");
                assert(left_encoding@ =~= enc.push('0'));
                assert(right_encoding@ =~= enc.push('1'));
            }
            get_encoding_map(left, left_encoding, chars);
            get_encoding_map(right, right_encoding, chars);
            proof {
                assert(chars@ =~= old(chars)@.union_prefer_right(spec_codes(*node, enc)));
                if enc.len() == 0 {
                    assert(enc =~= Seq::<char>::empty());
                }
                assert(spec_codes(*node, enc) == emitted_codes(*node, enc));
            }
        },
    }
}

/// The encoding of `msg`: the codewords of its symbols, concatenated in
/// message order.
pub open spec fn spec_encode(msg: Seq<char>, table: Map<char, Seq<char>>) -> Seq<char>
    decreases msg.len(),
{
    if msg.len() == 0 {
        Seq::empty()
    } else {
        table[msg[0]] + spec_encode(msg.drop_first(), table)
    }
}

pub proof fn lemma_encode_push(msg: Seq<char>, c: char, table: Map<char, Seq<char>>)
    ensures
        spec_encode(msg.push(c), table) == spec_encode(msg, table) + table[c],
    decreases msg.len(),
{
    if msg.len() == 0 {
        assert(msg.push(c)[0] == c);
        assert(msg.push(c).drop_first() =~= Seq::<char>::empty());
        assert(spec_encode(Seq::<char>::empty(), table) == Seq::<char>::empty());
        assert(table[c] + Seq::<char>::empty() =~= Seq::<char>::empty() + table[c]);
    } else {
        lemma_encode_push(msg.drop_first(), c, table);
        assert(msg.push(c).drop_first() =~= msg.drop_first().push(c));
        assert(msg.push(c)[0] == msg[0]);
        assert(table[msg[0]] + (spec_encode(msg.drop_first(), table) + table[c]) =~= (table[msg[0]]
            + spec_encode(msg.drop_first(), table)) + table[c]);
    }
}

/// Position `i` holds the first symbol of `msg` that the table does not cover.
pub open spec fn missing_at(msg: Seq<char>, table: Map<char, Seq<char>>, i: int) -> bool {
    &&& 0 <= i < msg.len()
    &&& !table.dom().contains(msg[i])
    &&& forall|j: int| 0 <= j < i ==> table.dom().contains(#[trigger] msg[j])
}

/// Substitutes each symbol of the message with its codeword. Fails fast on the
/// first symbol that has no entry, reporting that symbol.
pub fn encode_message(message: &str, chars: &CodeTable) -> (r: Result<String, char>)
    ensures
        match r {
            Ok(encoded) => {
                &&& forall|i: int|
                    0 <= i < message@.len() ==> chars@.dom().contains(#[trigger] message@[i])
                &&& encoded@ == spec_encode(message@, chars@)
            },
            Err(c) => exists|i: int| #[trigger] missing_at(message@, chars@, i) && message@[i] == c,
        },
{
    let n = message.unicode_len();
    let mut encoded_message = String::new();
    let mut i: usize = 0;
    proof {
        assert(message@.take(0).len() == 0);
    }
    while i < n
        invariant
            0 <= i <= n,
            n == message@.len(),
            forall|j: int| 0 <= j < i ==> chars@.dom().contains(#[trigger] message@[j]),
            encoded_message@ == spec_encode(message@.take(i as int), chars@),
        decreases n - i,
    {
        let c = message.get_char(i);
        match chars.get(c) {
            Some(code) => {
                encoded_message.append(code.as_str());
                proof {
                    lemma_encode_push(message@.take(i as int), c, chars@);
                    assert(message@.take(i + 1) =~= message@.take(i as int).push(c));
                }
            },
            None => {
                proof {
                    assert(missing_at(message@, chars@, i as int) && message@[i as int] == c);
                }
                return Err(c);
            },
        }
        i = i + 1;
    }
    proof {
        assert(message@.take(n as int) =~= message@);
    }
    Ok(encoded_message)
}

/// One decoded symbol together with the bits not yet consumed.
pub open spec fn walk_hit(letter: char, rest: Seq<char>) -> Option<(char, Seq<char>)> {
    Some((letter, rest))
}

/// Walks down from `t`, reading one bit per internal node ('0' left, '1'
/// right), until a leaf emits its symbol.
pub open spec fn walk(t: Node, bits: Seq<char>) -> Option<(char, Seq<char>)>
    decreases bits.len(),
{
    match t {
        Node::Leaf { letter, .. } => walk_hit(letter, bits),
        Node::Internal { left, right, .. } => {
            if bits.len() == 0 {
                None
            } else if bits[0] == '0' {
                walk(*left, bits.drop_first())
            } else if bits[0] == '1' {
                walk(*right, bits.drop_first())
            } else {
                None
            }
        },
    }
}

/// Decodes a bit sequence against the tree, walking from the root and
/// restarting there after each emitted symbol. Against a lone leaf, each '0'
/// bit stands for the one symbol.
pub open spec fn spec_decode(root: Node, bits: Seq<char>) -> Option<Seq<char>>
    decreases bits.len(),
{
    if bits.len() == 0 {
        Some(Seq::empty())
    } else {
        let step = match root {
            Node::Leaf { letter, .. } => if bits[0] == '0' {
                walk_hit(letter, bits.drop_first())
            } else {
                None
            },
            Node::Internal { .. } => walk(root, bits),
        };
        match step {
            Option::None => None,
            Option::Some((c, rest)) => {
                if rest.len() < bits.len() {
                    match spec_decode(root, rest) {
                        Option::None => None,
                        Option::Some(tail) => Some(seq![c] + tail),
                    }
                } else {
                    None
                }
            },
        }
    }
}

/// Walking a symbol's codeword from the root reaches exactly that symbol's
/// leaf and leaves the suffix unread.
pub proof fn lemma_walk_code(t: Node, c: char, suffix: Seq<char>)
    requires
        t.distinct(),
        t is Internal,
        t.symbols().contains(c),
    ensures
        spec_codes(t, Seq::empty()).dom().contains(c),
        spec_codes(t, Seq::empty())[c].len() >= 1,
        walk(t, spec_codes(t, Seq::empty())[c] + suffix) == walk_hit(c, suffix),
    decreases t,
{
    match t {
        Node::Leaf { .. } => {
        },
        Node::Internal { left, right, .. } => {
            lemma_codes_dom(t, Seq::empty());
            lemma_codes_dom(*left, seq!['0']);
            lemma_codes_dom(*right, seq!['1']);
            lemma_codes_shift(*left, seq!['0']);
            lemma_codes_shift(*right, seq!['1']);
            lemma_codes_dom(*left, Seq::empty());
            lemma_codes_dom(*right, Seq::empty());
            let code = spec_codes(t, Seq::empty())[c];
            if right.symbols().contains(c) {
                let x = spec_codes(*right, Seq::empty())[c];
                assert(code == spec_codes(*right, seq!['1'])[c]);
                assert(code == seq!['1'] + x);
                let bits = code + suffix;
                assert(bits[0] == '1');
                assert(bits.drop_first() =~= x + suffix);
                match *right {
                    Node::Leaf { letter, .. } => {
                        assert(c == letter);
                        assert(x =~= Seq::<char>::empty());
                        assert(x + suffix =~= suffix);
                    },
                    Node::Internal { .. } => {
                        lemma_walk_code(*right, c, suffix);
                    },
                }
            } else {
                assert(left.symbols().contains(c));
                let x = spec_codes(*left, Seq::empty())[c];
                assert(code == spec_codes(*left, seq!['0'])[c]);
                assert(code == seq!['0'] + x);
                let bits = code + suffix;
                assert(bits[0] == '0');
                assert(bits.drop_first() =~= x + suffix);
                match *left {
                    Node::Leaf { letter, .. } => {
                        assert(c == letter);
                        assert(x =~= Seq::<char>::empty());
                        assert(x + suffix =~= suffix);
                    },
                    Node::Internal { .. } => {
                        lemma_walk_code(*left, c, suffix);
                    },
                }
            }
        },
    }
}

/// Decoding the encoding of a message against the same tree gives the message
/// back, for any message over the tree's symbols.
pub proof fn lemma_decode_encode(t: Node, msg: Seq<char>)
    requires
        t.distinct(),
        forall|i: int| 0 <= i < msg.len() ==> t.symbols().contains(#[trigger] msg[i]),
    ensures
        spec_decode(t, spec_encode(msg, table_of(t))) == Some(msg),
    decreases msg.len(),
{
    let table = table_of(t);
    lemma_table_of_prefix_free(t);
    if msg.len() == 0 {
        assert(msg =~= Seq::<char>::empty());
    } else {
        let c0 = msg[0];
        let rest_msg = msg.drop_first();
        assert(forall|i: int|
            0 <= i < rest_msg.len() ==> t.symbols().contains(#[trigger] rest_msg[i]));
        lemma_decode_encode(t, rest_msg);
        let rest_enc = spec_encode(rest_msg, table);
        let bits = spec_encode(msg, table);
        assert(bits == table[c0] + rest_enc);
        match t {
            Node::Leaf { letter, .. } => {
                assert(c0 == letter);
                assert(table[c0] == seq!['0']);
                assert(bits.len() == 1 + rest_enc.len());
                assert(bits[0] == '0');
                assert(bits.drop_first() =~= rest_enc);
                assert(seq![c0] + rest_msg =~= msg);
            },
            Node::Internal { .. } => {
                lemma_walk_code(t, c0, rest_enc);
                assert(bits.len() == table[c0].len() + rest_enc.len());
                assert(seq![c0] + rest_msg =~= msg);
            },
        }
    }
}

/// One step of the executable decoder: from position `from`, walks the tree
/// until a leaf, returning its symbol and the next unread position.
fn walk_exec(t: &Node, bits: &str, from: usize, n: usize) -> (r: Option<(char, usize)>)
    requires
        from <= n == bits@.len(),
    ensures
        match r {
            Some(step) => {
                &&& from <= step.1 <= n
                &&& walk(*t, bits@.skip(from as int)) == walk_hit(
                    step.0,
                    bits@.skip(step.1 as int),
                )
                &&& (*t is Internal ==> step.1 > from)
            },
            None => walk(*t, bits@.skip(from as int)) is None,
        },
    decreases *t,
{
    match t {
        Node::Leaf { letter, .. } => {
            proof {
                assert(walk(*t, bits@.skip(from as int)) == walk_hit(
                    *letter,
                    bits@.skip(from as int),
                ));
            }
            Some((*letter, from))
        },
        Node::Internal { left, right, .. } => {
            if from == n {
                proof {
                    assert(bits@.skip(from as int).len() == 0);
                }
                None
            } else {
                let b = bits.get_char(from);
                proof {
                    assert(bits@.skip(from as int)[0] == bits@[from as int]);
                    assert(bits@.skip(from as int).drop_first() =~= bits@.skip(from + 1));
                }
                if b == '0' {
                    walk_exec(&**left, bits, from + 1, n)
                } else if b == '1' {
                    walk_exec(&**right, bits, from + 1, n)
                } else {
                    None
                }
            }
        },
    }
}

/// Decodes an encoded message bit-by-bit against the tree: walking left on
/// '0' and right on '1', emitting a symbol at each leaf and resetting to the
/// root.
pub fn decode_message(root: &Node, bits: &str) -> (r: Option<Vec<char>>)
    ensures
        match r {
            Some(message) => spec_decode(*root, bits@) == Some(message@),
            None => spec_decode(*root, bits@) is None,
        },
{
    let n = bits.unicode_len();
    let mut message: Vec<char> = Vec::new();
    let mut pos: usize = 0;
    proof {
        assert(bits@.skip(0) =~= bits@);
        if spec_decode(*root, bits@) is Some {
            let tail0 = spec_decode(*root, bits@).unwrap();
            assert(message@ + tail0 =~= tail0);
        }
    }
    while pos < n
        invariant
            0 <= pos <= n,
            n == bits@.len(),
            spec_decode(*root, bits@) == (match spec_decode(*root, bits@.skip(pos as int)) {
                Option::Some(tail) => Some(message@ + tail),
                Option::None => None::<Seq<char>>,
            }),
        decreases n - pos,
    {
        let step = match root {
            Node::Leaf { letter, .. } => {
                let b = bits.get_char(pos);
                if b == '0' {
                    Some((*letter, pos + 1))
                } else {
                    None
                }
            },
            Node::Internal { .. } => walk_exec(root, bits, pos, n),
        };
        proof {
            assert(bits@.skip(pos as int)[0] == bits@[pos as int]);
            assert(bits@.skip(pos as int).drop_first() =~= bits@.skip(pos + 1));
        }
        match step {
            Some(hit) => {
                let (c, next) = hit;
                proof {
                    assert(next > pos) by {
                        if *root is Internal {
                        } else {
                        }
                    }
                    assert(bits@.skip(next as int).len() < bits@.skip(pos as int).len());
                    assert(spec_decode(*root, bits@.skip(pos as int)) == (
                    match spec_decode(*root, bits@.skip(next as int)) {
                        Option::Some(tail) => Some(seq![c] + tail),
                        Option::None => None::<Seq<char>>,
                    }));
                    assert(message@ + (seq![c] + spec_decode(
                        *root,
                        bits@.skip(next as int),
                    ).unwrap()) =~= message@.push(c) + spec_decode(
                        *root,
                        bits@.skip(next as int),
                    ).unwrap());
                }
                message.push(c);
                pos = next;
            },
            None => {
                return None;
            },
        }
    }
    proof {
        assert(bits@.skip(n as int).len() == 0);
        assert(message@ + Seq::<char>::empty() =~= message@);
    }
    Some(message)
}

/// The Huffman tree built for the stream `s`; meaningful when `s` is
/// non-empty.
pub open spec fn spec_code_tree(s: Seq<char>) -> Node {
    spec_build_tree(spec_leaves(spec_frequencies(s)))
}

/// The codeword table that `build_code_table` produces for the stream `s`.
pub open spec fn spec_code_table(s: Seq<char>) -> Map<char, Seq<char>> {
    if s.len() == 0 {
        Map::empty()
    } else {
        table_of(spec_code_tree(s))
    }
}

/// The leaves made from the frequency entries of `s` satisfy the merge
/// invariant, and together carry exactly the symbols of `s`.
pub proof fn lemma_leaves_inv(s: Seq<char>)
    ensures
        queue_inv(spec_leaves(spec_frequencies(s))),
        forall|i: int|
            0 <= i < spec_leaves(spec_frequencies(s)).len() ==> (#[trigger] spec_leaves(
                spec_frequencies(s),
            )[i]).wf(),
        forall|c: char| queue_symbols(spec_leaves(spec_frequencies(s))).contains(c) <==> s.contains(
            c,
        ),
        spec_leaves(spec_frequencies(s)).len() == symbols_in_order(s).len(),
{
    let f = spec_frequencies(s);
    let q = spec_leaves(f);
    lemma_spec_leaves_props(f);
    lemma_symbols_in_order_no_dup(s);
    assert(f.len() == symbols_in_order(s).len());
    assert(forall|i: int| 0 <= i < f.len() ==> (#[trigger] f[i]).0 == symbols_in_order(s)[i]);
    assert forall|i: int, j: int|
        0 <= i < q.len() && 0 <= j < q.len() && i != j implies #[trigger] q[i].symbols().disjoint(
        #[trigger] q[j].symbols(),
    ) by {
        if i < j {
            assert(symbols_in_order(s)[i] != symbols_in_order(s)[j]);
        } else {
            assert(symbols_in_order(s)[j] != symbols_in_order(s)[i]);
        }
        assert(q[i].symbols() =~= set![f[i].0]);
        assert(q[j].symbols() =~= set![f[j].0]);
    }
    assert forall|c: char| queue_symbols(q).contains(c) <==> s.contains(c) by {
        lemma_frequencies_has_key(s, c);
        if queue_symbols(q).contains(c) {
            let i = choose|i: int| 0 <= i < q.len() && #[trigger] q[i].symbols().contains(c);
            assert(f[i].0 == c);
            assert(table_has_key(f, c));
        }
        if table_has_key(f, c) {
            let i = choose|i: int| 0 <= i < f.len() && (#[trigger] f[i]).0 == c;
            assert(q[i].symbols().contains(c));
        }
    }
}

/// The tree built for a non-empty stream has distinct leaf symbols: exactly
/// the symbols of the stream.
pub proof fn lemma_code_tree_props(s: Seq<char>)
    requires
        s.len() >= 1,
    ensures
        spec_code_tree(s).distinct(),
        forall|c: char| spec_code_tree(s).symbols().contains(c) <==> s.contains(c),
{
    let f = spec_frequencies(s);
    let q = spec_leaves(f);
    lemma_leaves_inv(s);
    assert(s.contains(s[0]));
    lemma_symbols_in_order_contains(s, s[0]);
    assert(symbols_in_order(s).len() >= 1);
    lemma_build_tree_symbols(q);
}

/// Prefix-freedom: in a built code table, no symbol's codeword is a prefix of
/// a different symbol's codeword.
pub proof fn lemma_code_table_prefix_free(s: Seq<char>)
    ensures
        prefix_free(spec_code_table(s)),
{
    if s.len() == 0 {
        assert(spec_code_table(s).dom() =~= Set::<char>::empty());
    } else {
        lemma_code_tree_props(s);
        lemma_table_of_prefix_free(spec_code_tree(s));
    }
}

/// Coverage: the built code table has exactly one entry per symbol of the
/// stream — equivalently, per entry of the frequency table — and no others.
pub proof fn lemma_code_table_coverage(s: Seq<char>)
    ensures
        forall|c: char| #[trigger] spec_code_table(s).dom().contains(c) <==> s.contains(c),
        forall|c: char|
            #[trigger] spec_code_table(s).dom().contains(c) <==> table_has_key(
                spec_frequencies(s),
                c,
            ),
{
    assert forall|c: char| #[trigger] spec_code_table(s).dom().contains(c) <==> s.contains(c) by {
        if s.len() == 0 {
            assert(!s.contains(c));
        } else {
            lemma_code_tree_props(s);
            lemma_table_of_prefix_free(spec_code_tree(s));
        }
    }
    assert forall|c: char|
        #[trigger] spec_code_table(s).dom().contains(c) <==> table_has_key(
            spec_frequencies(s),
            c,
        ) by {
        lemma_frequencies_has_key(s, c);
        if s.len() == 0 {
            assert(symbols_in_order(s).len() == 0);
            assert(!table_has_key(spec_frequencies(s), c));
        }
    }
}

/// Round trip: decoding the encoding of any message whose symbols all occur
/// in the stream, against the stream's tree, gives the message back.
pub proof fn lemma_round_trip(s: Seq<char>, msg: Seq<char>)
    requires
        s.len() >= 1,
        forall|i: int| 0 <= i < msg.len() ==> s.contains(#[trigger] msg[i]),
    ensures
        spec_decode(spec_code_tree(s), spec_encode(msg, spec_code_table(s))) == Some(msg),
{
    lemma_code_tree_props(s);
    let t = spec_code_tree(s);
    assert(forall|i: int| 0 <= i < msg.len() ==> t.symbols().contains(#[trigger] msg[i]));
    lemma_decode_encode(t, msg);
}

/// A one-symbol stream still gets a non-empty codeword: the single symbol
/// maps to "0".
pub proof fn lemma_single_symbol_code(s: Seq<char>)
    requires
        s.len() >= 1,
        forall|i: int| 0 <= i < s.len() ==> #[trigger] s[i] == s[0],
    ensures
        spec_code_table(s) == singleton_code(s[0], seq!['0']),
        spec_code_table(s)[s[0]].len() == 1,
{
    let sio = symbols_in_order(s);
    lemma_symbols_in_order_contains(s, s[0]);
    assert(s.contains(s[0]));
    lemma_symbols_in_order_no_dup(s);
    assert forall|i: int| 0 <= i < sio.len() implies sio[i] == s[0] by {
        assert(sio.contains(sio[i]));
        lemma_symbols_in_order_contains(s, sio[i]);
        let j = choose|j: int| 0 <= j < s.len() && s[j] == sio[i];
        assert(s[j] == s[0]);
    }
    assert(sio.len() >= 1);
    if sio.len() >= 2 {
        assert(sio[0] != sio[1]);
        assert(false);
    }
    assert(sio =~= seq![s[0]]);
    let f = spec_frequencies(s);
    let q = spec_leaves(f);
    lemma_spec_leaves_props(f);
    assert(q.len() == 1);
    assert(q[0] == spec_leaf(f[0]));
    assert(f[0].0 == s[0]);
    assert(spec_code_tree(s) == q[0]);
    assert(spec_code_table(s) == singleton_code(s[0], seq!['0']));
}

/// Derives the symbol→codeword mapping for a whole symbol stream: counts the
/// symbols, builds the tree by greedy merging, and reads the codewords off
/// the tree. An empty stream yields an empty table; a lone symbol gets the
/// codeword "0".
pub fn build_code_table(symbols: &str) -> (table: CodeTable)
    ensures
        table@ == spec_code_table(symbols@),
{
    let ghost s = symbols@;
    let n = symbols.unicode_len();
    let mut occurence_map = FrequencyTable::new();
    proof {
        assert(symbols_in_order(Seq::<char>::empty()).len() == 0);
        assert(occurence_map@ =~= spec_frequencies(Seq::<char>::empty()));
        assert(Seq::<char>::empty() + s =~= s);
    }
    tally_str(&mut occurence_map, symbols, Ghost(Seq::empty()));
    let mut table = CodeTable::new();
    if occurence_map.len() == 0 {
        proof {
            if s.len() > 0 {
                assert(s.contains(s[0]));
                lemma_symbols_in_order_contains(s, s[0]);
                assert(spec_frequencies(s).len() == symbols_in_order(s).len());
                assert(false);
            }
        }
        return table;
    }
    let ghost f = spec_frequencies(s);
    proof {
        if s.len() == 0 {
            assert(symbols_in_order(s).len() == 0);
            assert(f.len() == 0);
            assert(false);
        }
        lemma_spec_leaves_props(f);
        lemma_total_occ_leaves(f);
        lemma_sum_frequencies(s);
        assert(total_occ(spec_leaves(f)) <= usize::MAX);
    }
    let mut binary_heap = build_binary_heap(occurence_map);
    let huffman_tree = build_huffman_tree(&mut binary_heap);
    proof {
        assert(huffman_tree == spec_code_tree(s));
    }
    get_encoding_map(&huffman_tree, String::new(), &mut table);
    proof {
        assert(table@ =~= table_of(huffman_tree));
    }
    table
}

} // verus!
