use vstd::prelude::*;

use crate::freq::count_of;
use crate::text::{is_unicode_blank, unicode_blank};

verus! {

/// The greatest element of `arr[i..]`, or -1 when the range is empty.
pub open spec fn suffix_max(arr: Seq<i32>, i: int) -> int
    decreases arr.len() - i,
{
    if i < 0 || i >= arr.len() {
        -1
    } else {
        let rest = suffix_max(arr, i + 1);
        if arr[i] > rest {
            arr[i] as int
        } else {
            rest
        }
    }
}

/// Whether `s` can be obtained from `t` by deleting characters: either `s` is
/// done, or the heads match and both advance, or only `t` advances.
pub open spec fn is_subseq(s: Seq<char>, t: Seq<char>) -> bool
    decreases t.len(),
{
    if s.len() == 0 {
        true
    } else if t.len() == 0 {
        false
    } else if s[0] == t[0] {
        is_subseq(s.drop_first(), t.drop_first())
    } else {
        is_subseq(s, t.drop_first())
    }
}

/// `s` with every occurrence of `val` removed, order kept.
pub open spec fn without(s: Seq<i32>, val: i32) -> Seq<i32>
    decreases s.len(),
{
    if s.len() == 0 {
        s
    } else {
        let rest = without(s.drop_last(), val);
        if s.last() != val {
            rest.push(s.last())
        } else {
            rest
        }
    }
}

pub proof fn lemma_without_len(s: Seq<i32>, val: i32)
    ensures
        without(s, val).len() <= s.len(),
    decreases s.len(),
{
    if s.len() > 0 {
        lemma_without_len(s.drop_last(), val);
    }
}

pub struct Solution {}

impl Solution {
    /// Replaces every element with the greatest element to its right, the last
    /// one with -1.
    pub fn replace_elements(arr: Vec<i32>) -> (r: Vec<i32>)
        ensures
            r@.len() == arr@.len(),
            forall|i: int| 0 <= i < arr@.len() ==> #[trigger] r@[i] == suffix_max(arr@, i + 1),
    {
        let n = arr.len();
        let mut temp: Vec<i32> = Vec::new();
        let mut max_number: i32 = -1;
        let mut j: usize = n;
        while j > 0
            invariant
                0 <= j <= n,
                n == arr@.len(),
                max_number == suffix_max(arr@, j as int),
                temp@.len() == n - j,
                forall|k: int| 0 <= k < temp@.len() ==> #[trigger] temp@[k] == suffix_max(
                    arr@,
                    n - k,
                ),
            decreases j,
        {
            j = j - 1;
            temp.push(max_number);
            if arr[j] > max_number {
                max_number = arr[j];
            }
        }
        let mut result: Vec<i32> = Vec::new();
        let mut i: usize = 0;
        while i < n
            invariant
                0 <= i <= n,
                n == arr@.len(),
                temp@.len() == n,
                forall|k: int| 0 <= k < n ==> #[trigger] temp@[k] == suffix_max(arr@, n - k),
                result@.len() == i,
                forall|k: int| 0 <= k < i ==> #[trigger] result@[k] == suffix_max(arr@, k + 1),
            decreases n - i,
        {
            result.push(temp[n - 1 - i]);
            i = i + 1;
        }
        result
    }

    /// Whether `s` is a subsequence of `t`, by one greedy left-to-right scan.
    pub fn is_subsequence(s: String, t: String) -> (r: bool)
        ensures
            r == is_subseq(s@, t@),
    {
        let sn = s.as_str().unicode_len();
        let tn = t.as_str().unicode_len();
        let mut s_idx: usize = 0;
        let mut ti: usize = 0;
        proof {
            assert(s@.skip(0) =~= s@);
            assert(t@.skip(0) =~= t@);
        }
        while ti < tn
            invariant
                0 <= s_idx <= sn,
                0 <= ti <= tn,
                sn == s@.len(),
                tn == t@.len(),
                is_subseq(s@, t@) == is_subseq(s@.skip(s_idx as int), t@.skip(ti as int)),
            decreases tn - ti,
        {
            if s_idx == sn {
                proof {
                    assert(s@.skip(s_idx as int).len() == 0);
                }
                return true;
            }
            let s_char = s.as_str().get_char(s_idx);
            let t_char = t.as_str().get_char(ti);
            proof {
                assert(s@.skip(s_idx as int)[0] == s@[s_idx as int]);
                assert(t@.skip(ti as int)[0] == t@[ti as int]);
                assert(s@.skip(s_idx as int).drop_first() =~= s@.skip(s_idx + 1));
                assert(t@.skip(ti as int).drop_first() =~= t@.skip(ti + 1));
            }
            if t_char == s_char {
                s_idx = s_idx + 1;
            }
            ti = ti + 1;
        }
        proof {
            assert(t@.skip(tn as int).len() == 0);
            if s_idx < sn {
                assert(s@.skip(s_idx as int).len() > 0);
            } else {
                assert(s@.skip(s_idx as int).len() == 0);
            }
        }
        s_idx == sn
    }

    /// Moves every element other than `val` to the front, keeping their order,
    /// and returns how many there are. What sits past that count is leftover.
    pub fn remove_element(nums: &mut Vec<i32>, val: i32) -> (r: i32)
        requires
            old(nums)@.len() <= i32::MAX,
        ensures
            0 <= r <= old(nums)@.len(),
            final(nums)@.len() == old(nums)@.len(),
            r as int == without(old(nums)@, val).len(),
            final(nums)@.subrange(0, r as int) == without(old(nums)@, val),
    {
        let n = nums.len();
        let mut idx: usize = 0;
        let mut i: usize = 0;
        proof {
            assert(old(nums)@.take(0).len() == 0);
            assert(nums@.take(0) =~= without(old(nums)@.take(0), val));
        }
        while i < n
            invariant
                0 <= idx <= i <= n,
                n == nums@.len() == old(nums)@.len(),
                nums@.take(idx as int) =~= without(old(nums)@.take(i as int), val),
                forall|p: int| i <= p < n ==> #[trigger] nums@[p] == old(nums)@[p],
            decreases n - i,
        {
            proof {
                assert(nums@[i as int] == old(nums)@[i as int]);
                assert(old(nums)@.take(i + 1).drop_last() =~= old(nums)@.take(i as int));
                assert(old(nums)@.take(i + 1).last() == old(nums)@[i as int]);
            }
            if nums[i] != val {
                let v = nums[i];
                nums.set(idx, v);
                idx = idx + 1;
                proof {
                    assert(nums@.take(idx as int) =~= without(old(nums)@.take(i as int), val).push(
                        old(nums)@[i as int],
                    ));
                }
            }
            i = i + 1;
        }
        proof {
            assert(old(nums)@.take(n as int) =~= old(nums)@);
            assert(nums@.take(idx as int) =~= nums@.subrange(0, idx as int));
            lemma_without_len(old(nums)@, val);
        }
        idx as i32
    }
}

/// Positions `i` and `j` hold two numbers that add up to `target`.
pub open spec fn pair_at(nums: Seq<i32>, target: i32, i: int, j: int) -> bool {
    &&& 0 <= i < j < nums.len()
    &&& nums[i] + nums[j] == target
}

pub open spec fn spec_is_space(c: char) -> bool {
    is_unicode_blank(c)
}

/// `s` without its trailing whitespace.
pub open spec fn trim_end(s: Seq<char>) -> Seq<char>
    decreases s.len(),
{
    if s.len() > 0 && spec_is_space(s.last()) {
        trim_end(s.drop_last())
    } else {
        s
    }
}

/// `s` without its leading whitespace.
pub open spec fn trim_start(s: Seq<char>) -> Seq<char>
    decreases s.len(),
{
    if s.len() > 0 && spec_is_space(s.first()) {
        trim_start(s.drop_first())
    } else {
        s
    }
}

/// How many characters stand between the end of `t` and the nearest ' '.
pub open spec fn count_from_end(t: Seq<char>) -> int
    decreases t.len(),
{
    if t.len() == 0 {
        0
    } else if t.last() == ' ' {
        0
    } else {
        1 + count_from_end(t.drop_last())
    }
}

/// The binomial coefficient by its additive recurrence; 1 on the borders.
pub open spec fn pascal(n: int, k: int) -> int
    decreases n,
{
    if k <= 0 || k >= n {
        1
    } else {
        pascal(n - 1, k - 1) + pascal(n - 1, k)
    }
}

pub open spec fn pow2(n: int) -> int
    decreases n,
{
    if n <= 0 {
        1
    } else {
        2 * pow2(n - 1)
    }
}

pub proof fn lemma_pow2_pos(n: int)
    ensures
        pow2(n) >= 1,
    decreases n,
{
    if n > 0 {
        lemma_pow2_pos(n - 1);
    }
}

pub proof fn lemma_pow2_mono(a: int, b: int)
    requires
        a <= b,
    ensures
        pow2(a) <= pow2(b),
    decreases b - a,
{
    if a < b {
        lemma_pow2_mono(a, b - 1);
        lemma_pow2_pos(b - 1);
    }
}

pub proof fn lemma_pow2_30()
    ensures
        pow2(30) == 0x4000_0000,
{
    reveal_with_fuel(pow2, 32);
}

/// Every entry of row `n` lies between 1 and 2 to the (n-1)-th, for n >= 1.
pub proof fn lemma_pascal_bound(n: int, k: int)
    requires
        0 <= k <= n,
        n >= 1,
    ensures
        1 <= pascal(n, k) <= pow2(n - 1),
    decreases n,
{
    if k <= 0 || k >= n {
        lemma_pow2_pos(n - 1);
    } else {
        lemma_pascal_bound(n - 1, k - 1);
        lemma_pascal_bound(n - 1, k);
    }
}

impl Solution {
    /// Finds the first pair of positions whose numbers add up to `target`:
    /// smallest second position, then largest first position; empty when no
    /// pair exists.
    pub fn two_sum(nums: Vec<i32>, target: i32) -> (r: Vec<i32>)
        requires
            nums@.len() <= i32::MAX,
        ensures
            r@.len() == 0 ==> forall|i: int, j: int| !pair_at(nums@, target, i, j),
            r@.len() != 0 ==> {
                &&& r@.len() == 2
                &&& pair_at(nums@, target, r@[0] as int, r@[1] as int)
                &&& forall|i: int, j: int| 0 <= j < r@[1] ==> !pair_at(nums@, target, i, j)
                &&& forall|i: int|
                    r@[0] < i < r@[1] ==> (#[trigger] nums@[i]) + nums@[r@[1] as int] != target
            },
    {
        let n = nums.len();
        let mut j: usize = 0;
        while j < n
            invariant
                0 <= j <= n,
                n == nums@.len() <= i32::MAX,
                forall|ii: int, jj: int| 0 <= jj < j ==> !pair_at(nums@, target, ii, jj),
            decreases n - j,
        {
            let mut i: usize = j;
            while i > 0
                invariant
                    0 <= i <= j < n,
                    n == nums@.len() <= i32::MAX,
                    forall|ii: int, jj: int| 0 <= jj < j ==> !pair_at(nums@, target, ii, jj),
                    forall|ii: int|
                        i <= ii < j ==> (#[trigger] nums@[ii]) + nums@[j as int] != target,
                decreases i,
            {
                i = i - 1;
                if (nums[i] as i64) + (nums[j] as i64) == (target as i64) {
                    let mut result: Vec<i32> = Vec::new();
                    result.push(i as i32);
                    result.push(j as i32);
                    proof {
                        assert(pair_at(nums@, target, i as int, j as int));
                    }
                    return result;
                }
            }
            j = j + 1;
        }
        let result: Vec<i32> = Vec::new();
        proof {
            assert forall|ii: int, jj: int| !pair_at(nums@, target, ii, jj) by {
                if 0 <= jj < n {
                }
            }
        }
        result
    }

    /// The length of the last word: the characters between the trimmed end of
    /// the text and the nearest space.
    pub fn length_of_last_word(s: String) -> (r: i32)
        requires
            s@.len() <= i32::MAX,
        ensures
            r as int == count_from_end(trim_start(trim_end(s@))),
    {
        let n = s.as_str().unicode_len();
        let mut e: usize = n;
        proof {
            assert(s@.take(n as int) =~= s@);
        }
        while e > 0 && is_space(s.as_str().get_char(e - 1))
            invariant
                0 <= e <= n,
                n == s@.len(),
                trim_end(s@) == trim_end(s@.take(e as int)),
            decreases e,
        {
            proof {
                assert(s@.take(e as int).last() == s@[e - 1]);
                assert(s@.take(e as int).drop_last() =~= s@.take(e - 1));
            }
            e = e - 1;
        }
        proof {
            if e > 0 {
                assert(s@.take(e as int).last() == s@[e - 1]);
            }
            assert(trim_end(s@) == s@.take(e as int));
        }
        let mut b: usize = 0;
        proof {
            assert(s@.subrange(0, e as int) =~= s@.take(e as int));
        }
        while b < e && is_space(s.as_str().get_char(b))
            invariant
                0 <= b <= e <= n,
                n == s@.len(),
                trim_end(s@) == s@.take(e as int),
                trim_start(s@.take(e as int)) == trim_start(s@.subrange(b as int, e as int)),
            decreases e - b,
        {
            proof {
                assert(s@.subrange(b as int, e as int).first() == s@[b as int]);
                assert(s@.subrange(b as int, e as int).drop_first() =~= s@.subrange(
                    b + 1,
                    e as int,
                ));
            }
            b = b + 1;
        }
        proof {
            if b < e {
                assert(s@.subrange(b as int, e as int).first() == s@[b as int]);
            }
            assert(trim_start(s@.take(e as int)) == s@.subrange(b as int, e as int));
        }
        let ghost word = s@.subrange(b as int, e as int);
        let mut i: usize = e;
        let mut size: i32 = 0;
        while i > b && s.as_str().get_char(i - 1) != ' '
            invariant
                0 <= b <= i <= e <= n,
                n == s@.len() <= i32::MAX,
                size == e - i,
                count_from_end(word) == size + count_from_end(s@.subrange(b as int, i as int)),
            decreases i,
        {
            proof {
                assert(s@.subrange(b as int, i as int).last() == s@[i - 1]);
                assert(s@.subrange(b as int, i as int).drop_last() =~= s@.subrange(
                    b as int,
                    i - 1,
                ));
            }
            size = size + 1;
            i = i - 1;
        }
        proof {
            if i > b {
                assert(s@.subrange(b as int, i as int).last() == s@[i - 1]);
                assert(count_from_end(s@.subrange(b as int, i as int)) == 0);
            } else {
                assert(s@.subrange(b as int, i as int).len() == 0);
            }
        }
        size
    }

    /// The first `num_rows` rows of Pascal's triangle. Rows up to index 31
    /// are provably within `i32` by the doubling bound used here; the exact
    /// ceiling is a few rows higher but rests on the unimodality of the
    /// binomials, which is not proved here.
    pub fn generate_pascal_triangle(num_rows: i32) -> (r: Vec<Vec<i32>>)
        requires
            0 <= num_rows <= 32,
        ensures
            r@.len() == num_rows as int,
            forall|j: int| 0 <= j < r@.len() ==> (#[trigger] r@[j])@.len() == j + 1,
            forall|j: int, k: int|
                0 <= j < r@.len() && 0 <= k <= j ==> #[trigger] r@[j]@[k] == pascal(j, k),
    {
        let n = num_rows as usize;
        let mut triangle: Vec<Vec<i32>> = Vec::new();
        let mut row_idx: usize = 0;
        while row_idx < n
            invariant
                0 <= row_idx <= n <= 32,
                triangle@.len() == row_idx,
                forall|j: int| 0 <= j < row_idx ==> (#[trigger] triangle@[j])@.len() == j + 1,
                forall|j: int, k: int|
                    0 <= j < row_idx && 0 <= k <= j ==> #[trigger] triangle@[j]@[k] == pascal(j, k),
            decreases n - row_idx,
        {
            let mut row: Vec<i32> = Vec::new();
            let mut c: usize = 0;
            while c < row_idx + 1
                invariant
                    row_idx < n <= 32,
                    0 <= c <= row_idx + 1,
                    row@.len() == c,
                    forall|k: int| 0 <= k < c ==> #[trigger] row@[k] == 1,
                decreases row_idx + 1 - c,
            {
                row.push(1);
                c = c + 1;
            }
            let mut col: usize = 1;
            while col < row_idx
                invariant
                    1 <= col,
                    col <= row_idx || col == 1,
                    row_idx < n <= 32,
                    row@.len() == row_idx + 1,
                    triangle@.len() == row_idx,
                    forall|j: int| 0 <= j < row_idx ==> (#[trigger] triangle@[j])@.len() == j + 1,
                    forall|j: int, k: int|
                        0 <= j < row_idx && 0 <= k <= j ==> #[trigger] triangle@[j]@[k] == pascal(
                            j,
                            k,
                        ),
                    forall|k: int| 0 <= k < col ==> #[trigger] row@[k] == pascal(row_idx as int, k),
                    forall|k: int| col <= k <= row_idx ==> #[trigger] row@[k] == 1,
                decreases row_idx - col,
            {
                let prev = &triangle[row_idx - 1];
                let a = prev[col - 1];
                let b = prev[col];
                proof {
                    lemma_pascal_bound(row_idx - 1, col - 1);
                    lemma_pascal_bound(row_idx - 1, col as int);
                    lemma_pow2_mono(row_idx - 1, 30);
                    lemma_pow2_30();
                }
                row.set(col, a + b);
                col = col + 1;
            }
            proof {
                assert forall|k: int| 0 <= k <= row_idx implies #[trigger] row@[k] == pascal(
                    row_idx as int,
                    k,
                ) by {
                    if k == row_idx {
                        assert(row@[k] == 1);
                    }
                }
            }
            triangle.push(row);
            row_idx = row_idx + 1;
        }
        triangle
    }
}

/// The first `l` characters are shared by every string of `views`.
pub open spec fn spec_common_len(views: Seq<Seq<char>>, l: int) -> bool {
    &&& 0 <= l
    &&& forall|k: int|
        0 <= k < views.len() ==> l <= (#[trigger] views[k]).len() && views[k].subrange(0, l)
            == views[0].subrange(0, l)
}

impl Solution {
    /// The longest prefix shared by all of the strings.
    pub fn longest_common_prefix(strs: Vec<String>) -> (r: String)
        requires
            strs@.len() >= 1,
        ensures
            r@ == strs.deep_view()[0].subrange(0, r@.len() as int),
            spec_common_len(strs.deep_view(), r@.len() as int),
            !spec_common_len(strs.deep_view(), r@.len() as int + 1),
    {
        let ghost dv = strs.deep_view();
        let n = strs.len();
        proof {
            assert(forall|k: int| 0 <= k < n ==> dv[k] == (#[trigger] strs@[k])@);
        }
        if n == 1 {
            let r = strs[0].clone();
            proof {
                assert(r@ == dv[0]);
                assert(r@ =~= dv[0].subrange(0, r@.len() as int));
            }
            return r;
        }
        let limit = strs[0].as_str().unicode_len();
        let mut idx: usize = 0;
        let mut done = false;
        proof {
            assert forall|k: int| 0 <= k < n implies 0 <= (#[trigger] dv[k]).len() && dv[
            k
            ].subrange(0, 0) == dv[0].subrange(0, 0) by {
                assert(dv[k].subrange(0, 0) =~= dv[0].subrange(0, 0));
            }
        }
        while idx < limit && !done
            invariant
                0 <= idx <= limit,
                n == strs@.len() >= 1,
                dv == strs.deep_view(),
                limit == dv[0].len(),
                spec_common_len(dv, idx as int),
                done ==> !spec_common_len(dv, idx + 1),
            decreases limit - idx + (if done {
                0int
            } else {
                1int
            }),
        {
            let c0 = strs[0].as_str().get_char(idx);
            proof {
                assert(dv[0] == (strs@[0])@);
            }
            let mut k: usize = 1;
            let mut ok = true;
            while k < n && ok
                invariant
                    1 <= k <= n,
                    n == strs@.len(),
                    dv == strs.deep_view(),
                    0 <= idx < limit,
                    limit == dv[0].len(),
                    c0 == dv[0][idx as int],
                    spec_common_len(dv, idx as int),
                    ok ==> forall|kk: int|
                        0 <= kk < k ==> idx < (#[trigger] dv[kk]).len() && dv[kk][idx as int]
                            == dv[0][idx as int],
                    !ok ==> !spec_common_len(dv, idx + 1),
                decreases n - k + (if ok {
                    1int
                } else {
                    0int
                }),
            {
                proof {
                    assert(dv[k as int] == (strs@[k as int])@);
                }
                if strs[k].as_str().unicode_len() <= idx {
                    ok = false;
                    proof {
                        assert(dv[k as int].len() <= idx);
                        assert(!spec_common_len(dv, idx + 1));
                    }
                } else {
                    let ck = strs[k].as_str().get_char(idx);
                    if ck == c0 {
                        k = k + 1;
                    } else {
                        ok = false;
                        proof {
                            if spec_common_len(dv, idx + 1) {
                                assert(dv[k as int].subrange(0, idx + 1) == dv[0].subrange(
                                    0,
                                    idx + 1,
                                ));
                                assert(dv[k as int].subrange(0, idx + 1)[idx as int] == dv[
                                    0
                                ].subrange(0, idx + 1)[idx as int]);
                                assert(false);
                            }
                        }
                    }
                }
            }
            if ok {
                proof {
                    assert forall|kk: int|
                        0 <= kk < n implies idx + 1 <= (#[trigger] dv[kk]).len() && dv[kk].subrange(
                        0,
                        idx + 1,
                    ) == dv[0].subrange(0, idx + 1) by {
                        assert(dv[kk].subrange(0, idx + 1) =~= dv[kk].subrange(0, idx as int).push(
                            dv[kk][idx as int],
                        ));
                        assert(dv[0].subrange(0, idx + 1) =~= dv[0].subrange(0, idx as int).push(
                            dv[0][idx as int],
                        ));
                        assert(dv[kk].subrange(0, idx as int) == dv[0].subrange(0, idx as int));
                        assert(dv[kk][idx as int] == dv[0][idx as int]);
                    }
                }
                idx = idx + 1;
            } else {
                done = true;
            }
        }
        proof {
            if !done {
                if spec_common_len(dv, idx + 1) {
                    assert(idx + 1 <= dv[0].len());
                    assert(false);
                }
            }
        }
        let prefix = strs[0].as_str().substring_char(0, idx);
        let r = prefix.to_owned();
        proof {
            assert(r@ == dv[0].subrange(0, idx as int));
        }
        r
    }
}

/// `a` and `b` contain the same characters with the same multiplicities.
pub open spec fn same_anagram(a: Seq<char>, b: Seq<char>) -> bool {
    forall|c: char| #[trigger] count_of(a, c) == count_of(b, c)
}

/// The number of strings over all groups.
pub open spec fn group_sizes(groups: Seq<Seq<Seq<char>>>) -> int
    decreases groups.len(),
{
    if groups.len() == 0 {
        0
    } else {
        group_sizes(groups.drop_last()) + groups.last().len()
    }
}

pub proof fn lemma_group_sizes_update(groups: Seq<Seq<Seq<char>>>, g: int, x: Seq<Seq<char>>)
    requires
        0 <= g < groups.len(),
    ensures
        group_sizes(groups.update(g, x)) == group_sizes(groups) - groups[g].len() + x.len(),
    decreases groups.len(),
{
    if g == groups.len() - 1 {
        assert(groups.update(g, x).drop_last() =~= groups.drop_last());
        assert(groups.update(g, x).last() == x);
    } else {
        assert(groups.update(g, x).drop_last() =~= groups.drop_last().update(g, x));
        assert(groups.update(g, x).last() == groups.last());
        lemma_group_sizes_update(groups.drop_last(), g, x);
    }
}

pub proof fn lemma_same_anagram_sym(a: Seq<char>, b: Seq<char>)
    requires
        same_anagram(a, b),
    ensures
        same_anagram(b, a),
{
    assert forall|c: char| #[trigger] count_of(b, c) == count_of(a, c) by {
        assert(count_of(a, c) == count_of(b, c));
    }
}

pub proof fn lemma_same_anagram_trans(a: Seq<char>, b: Seq<char>, d: Seq<char>)
    requires
        same_anagram(a, b),
        same_anagram(b, d),
    ensures
        same_anagram(a, d),
{
    assert forall|c: char| #[trigger] count_of(a, c) == count_of(d, c) by {
        assert(count_of(a, c) == count_of(b, c));
        assert(count_of(b, c) == count_of(d, c));
    }
}

/// The strings of `sv` that are anagrams of `rep`, in input order.
pub open spec fn anagrams_of(sv: Seq<Seq<char>>, rep: Seq<char>) -> Seq<Seq<char>>
    decreases sv.len(),
{
    if sv.len() == 0 {
        Seq::empty()
    } else {
        let rest = anagrams_of(sv.drop_last(), rep);
        if same_anagram(sv.last(), rep) {
            rest.push(sv.last())
        } else {
            rest
        }
    }
}

pub proof fn lemma_anagrams_of_empty(sv: Seq<Seq<char>>, rep: Seq<char>)
    requires
        forall|k: int| 0 <= k < sv.len() ==> !same_anagram(#[trigger] sv[k], rep),
    ensures
        anagrams_of(sv, rep).len() == 0,
    decreases sv.len(),
{
    if sv.len() > 0 {
        assert forall|k: int|
            0 <= k < sv.drop_last().len() implies !same_anagram(
            #[trigger] sv.drop_last()[k],
            rep,
        ) by {
            assert(sv.drop_last()[k] == sv[k]);
        }
        lemma_anagrams_of_empty(sv.drop_last(), rep);
        assert(sv[sv.len() - 1] == sv.last());
    }
}

/// How often `c` occurs among the characters of `s`.
fn count_in(s: &str, c: char) -> (r: usize)
    ensures
        r == count_of(s@, c),
{
    let n = s.unicode_len();
    let mut i: usize = 0;
    let mut cnt: usize = 0;
    proof {
        assert(s@.take(0).len() == 0);
    }
    while i < n
        invariant
            0 <= i <= n,
            n == s@.len(),
            cnt == count_of(s@.take(i as int), c),
        decreases n - i,
    {
        proof {
            crate::freq::lemma_count_of_le_len(s@.take(i as int), c);
            crate::freq::lemma_count_of_push(s@.take(i as int), s@[i as int], c);
            assert(s@.take(i + 1) =~= s@.take(i as int).push(s@[i as int]));
        }
        if s.get_char(i) == c {
            cnt = cnt + 1;
        }
        i = i + 1;
    }
    proof {
        assert(s@.take(n as int) =~= s@);
    }
    cnt
}

/// Whether `u` and `w` are anagrams of one another: every character occurs
/// equally often in both.
fn is_anagram(u: &str, w: &str) -> (r: bool)
    ensures
        r == same_anagram(u@, w@),
{
    let un = u.unicode_len();
    let wn = w.unicode_len();
    let mut i: usize = 0;
    while i < un
        invariant
            0 <= i <= un,
            un == u@.len(),
            forall|j: int| 0 <= j < i ==> count_of(u@, #[trigger] u@[j]) == count_of(w@, u@[j]),
        decreases un - i,
    {
        let c = u.get_char(i);
        if count_in(u, c) != count_in(w, c) {
            return false;
        }
        i = i + 1;
    }
    let mut k: usize = 0;
    while k < wn
        invariant
            0 <= k <= wn,
            un == u@.len(),
            wn == w@.len(),
            forall|j: int| 0 <= j < un ==> count_of(u@, #[trigger] u@[j]) == count_of(w@, u@[j]),
            forall|j: int| 0 <= j < k ==> count_of(u@, #[trigger] w@[j]) == count_of(w@, w@[j]),
        decreases wn - k,
    {
        let c = w.get_char(k);
        if count_in(u, c) != count_in(w, c) {
            return false;
        }
        k = k + 1;
    }
    proof {
        assert forall|c: char| #[trigger] count_of(u@, c) == count_of(w@, c) by {
            crate::freq::lemma_count_of_zero(u@, c);
            crate::freq::lemma_count_of_zero(w@, c);
            if u@.contains(c) {
                let j = choose|j: int| 0 <= j < u@.len() && u@[j] == c;
                assert(count_of(u@, u@[j]) == count_of(w@, u@[j]));
            } else if w@.contains(c) {
                let j = choose|j: int| 0 <= j < w@.len() && w@[j] == c;
                assert(count_of(u@, w@[j]) == count_of(w@, w@[j]));
            }
        }
    }
    true
}

impl Solution {
    /// Partitions the strings into groups of mutual anagrams, groups in order
    /// of first appearance, strings in input order within each group.
    pub fn group_anagrams(strs: Vec<String>) -> (r: Vec<Vec<String>>)
        ensures
            ({
                let gv = r.deep_view();
                let sv = strs.deep_view();
                &&& forall|g: int| 0 <= g < gv.len() ==> (#[trigger] gv[g]).len() >= 1
                &&& forall|g: int, a: int|
                    0 <= g < gv.len() && 0 <= a < gv[g].len() ==> same_anagram(
                        #[trigger] gv[g][a],
                        gv[g][0],
                    )
                &&& forall|g1: int, g2: int|
                    0 <= g1 < gv.len() && 0 <= g2 < gv.len() && g1 != g2 ==> !same_anagram(
                        #[trigger] gv[g1][0],
                        #[trigger] gv[g2][0],
                    )
                &&& group_sizes(gv) == sv.len()
                &&& forall|g: int, a: int|
                    0 <= g < gv.len() && 0 <= a < gv[g].len() ==> sv.contains(#[trigger] gv[g][a])
                &&& forall|g: int| 0 <= g < gv.len() ==> #[trigger] gv[g] == anagrams_of(
                    sv,
                    gv[g][0],
                )
                &&& forall|k: int|
                    0 <= k < sv.len() ==> exists|g: int|
                        0 <= g < gv.len() && same_anagram(#[trigger] sv[k], (#[trigger] gv[g])[0])
            }),
    {
        let ghost sv = strs.deep_view();
        let mut result: Vec<Vec<String>> = Vec::new();
        let mut si: usize = 0;
        while si < strs.len()
            invariant
                0 <= si <= strs@.len(),
                sv == strs.deep_view(),
                ({
                    let gv = result.deep_view();
                    &&& forall|g: int| 0 <= g < gv.len() ==> (#[trigger] gv[g]).len() >= 1
                    &&& forall|g: int, a: int|
                        0 <= g < gv.len() && 0 <= a < gv[g].len() ==> same_anagram(
                            #[trigger] gv[g][a],
                            gv[g][0],
                        )
                    &&& forall|g1: int, g2: int|
                        0 <= g1 < gv.len() && 0 <= g2 < gv.len() && g1 != g2 ==> !same_anagram(
                            #[trigger] gv[g1][0],
                            #[trigger] gv[g2][0],
                        )
                    &&& group_sizes(gv) == si
                    &&& forall|g: int, a: int|
                        0 <= g < gv.len() && 0 <= a < gv[g].len() ==> sv.contains(
                            #[trigger] gv[g][a],
                        )
                    &&& forall|g: int| 0 <= g < gv.len() ==> #[trigger] gv[g] == anagrams_of(
                        sv.take(si as int),
                        gv[g][0],
                    )
                    &&& forall|k: int|
                        0 <= k < si ==> exists|g: int|
                            0 <= g < gv.len() && same_anagram(
                                #[trigger] sv[k],
                                (#[trigger] gv[g])[0],
                            )
                }),
            decreases strs@.len() - si,
        {
            let ghost gv0 = result.deep_view();
            let ghost svi = sv.take(si as int);
            let ghost svi1 = sv.take(si + 1);
            let s: String = strs[si].clone();
            proof {
                assert(s@ == sv[si as int]);
                assert(sv.contains(sv[si as int]));
                assert(svi1.drop_last() =~= svi);
                assert(svi1.last() == sv[si as int]);
            }
            let mut g: usize = 0;
            let mut found = false;
            while g < result.len() && !found
                invariant
                    0 <= g <= result@.len(),
                    result.deep_view() == gv0,
                    forall|gg: int| 0 <= gg < gv0.len() ==> (#[trigger] gv0[gg]).len() >= 1,
                    forall|gg: int| 0 <= gg < g ==> !same_anagram(s@, #[trigger] gv0[gg][0]),
                    found ==> g < gv0.len() && same_anagram(s@, gv0[g as int][0]),
                decreases result@.len() - g + (if found {
                    0int
                } else {
                    1int
                }),
            {
                let group_ref = &result[g];
                proof {
                    assert(gv0[g as int] == group_ref.deep_view());
                    assert(group_ref.deep_view().len() == group_ref@.len());
                    assert(group_ref.deep_view()[0] == group_ref@[0]@);
                }
                let first = &group_ref[0];
                if is_anagram(s.as_str(), first.as_str()) {
                    found = true;
                } else {
                    g = g + 1;
                }
            }
            if found {
                let ghost old_group = gv0[g as int];
                let mut grp = result.remove(g);
                grp.push(s);
                result.insert(g, grp);
                proof {
                    let gv1 = result.deep_view();
                    assert forall|gg: int| 0 <= gg < gv1.len() implies #[trigger] gv1[gg] == gv0.update(
                        g as int,
                        old_group.push(sv[si as int]),
                    )[gg] by {
                        assert(gv1[gg] == result@[gg].deep_view());
                    }
                    assert(gv1 =~= gv0.update(g as int, old_group.push(sv[si as int])));
                    lemma_group_sizes_update(gv0, g as int, old_group.push(sv[si as int]));
                    assert(gv1[g as int][0] == old_group[0]);
                    assert(same_anagram(sv[si as int], old_group[0]));
                    assert(anagrams_of(svi1, old_group[0]) == anagrams_of(svi, old_group[0]).push(
                        sv[si as int],
                    ));
                    assert forall|gg: int| 0 <= gg < gv1.len() implies #[trigger] gv1[gg]
                        == anagrams_of(svi1, gv1[gg][0]) by {
                        if gg == g {
                        } else {
                            assert(gv1[gg] == gv0[gg]);
                            if same_anagram(sv[si as int], gv0[gg][0]) {
                                lemma_same_anagram_sym(sv[si as int], old_group[0]);
                                lemma_same_anagram_trans(
                                    old_group[0],
                                    sv[si as int],
                                    gv0[gg][0],
                                );
                                assert(false);
                            }
                            assert(anagrams_of(svi1, gv0[gg][0]) == anagrams_of(svi, gv0[gg][0]));
                        }
                    }
                    assert forall|k: int| 0 <= k < si + 1 implies exists|gg: int|
                        0 <= gg < gv1.len() && same_anagram(
                            #[trigger] sv[k],
                            (#[trigger] gv1[gg])[0],
                        ) by {
                        if k == si {
                            assert(same_anagram(sv[k], (gv1[g as int])[0]));
                        } else {
                            let gg = choose|gg: int|
                                0 <= gg < gv0.len() && same_anagram(
                                    sv[k],
                                    (#[trigger] gv0[gg])[0],
                                );
                            assert(gv1[gg][0] == gv0[gg][0]);
                            assert(same_anagram(sv[k], (gv1[gg])[0]));
                        }
                    }
                }
            } else {
                let mut grp: Vec<String> = Vec::new();
                grp.push(s);
                result.push(grp);
                proof {
                    let gv1 = result.deep_view();
                    assert forall|gg: int| 0 <= gg < gv1.len() implies #[trigger] gv1[gg] == gv0.push(
                        seq![sv[si as int]],
                    )[gg] by {
                        assert(gv1[gg] == result@[gg].deep_view());
                        if gg < gv0.len() {
                            assert(gv1[gg] == gv0[gg]);
                        } else {
                            assert(result@[gg].deep_view() =~= seq![sv[si as int]]);
                        }
                    }
                    assert(gv1 =~= gv0.push(seq![sv[si as int]]));
                    assert(gv1.drop_last() =~= gv0);
                    let gv1 = result.deep_view();
                    assert forall|g1: int, g2: int|
                        0 <= g1 < gv1.len() && 0 <= g2 < gv1.len() && g1 != g2 implies !same_anagram(
                        #[trigger] gv1[g1][0],
                        #[trigger] gv1[g2][0],
                    ) by {
                        if g1 == gv0.len() {
                            assert(!same_anagram(sv[si as int], gv0[g2][0]));
                            if same_anagram(gv1[g1][0], gv1[g2][0]) {
                                assert(same_anagram(sv[si as int], gv0[g2][0]));
                                assert(false);
                            }
                        } else if g2 == gv0.len() {
                            assert(!same_anagram(sv[si as int], gv0[g1][0]));
                            if same_anagram(gv1[g1][0], gv1[g2][0]) {
                                assert(same_anagram(sv[si as int], gv0[g1][0]));
                                assert(false);
                            }
                        }
                    }
                    assert forall|k: int| 0 <= k < svi.len() implies !same_anagram(
                        #[trigger] svi[k],
                        sv[si as int],
                    ) by {
                        assert(svi[k] == sv[k]);
                        let gg = choose|gg: int|
                            0 <= gg < gv0.len() && same_anagram(sv[k], (#[trigger] gv0[gg])[0]);
                        if same_anagram(svi[k], sv[si as int]) {
                            lemma_same_anagram_sym(sv[k], sv[si as int]);
                            lemma_same_anagram_trans(sv[si as int], sv[k], gv0[gg][0]);
                            assert(false);
                        }
                    }
                    lemma_anagrams_of_empty(svi, sv[si as int]);
                    assert(same_anagram(sv[si as int], sv[si as int]));
                    assert(anagrams_of(svi1, sv[si as int]) =~= seq![sv[si as int]]);
                    assert forall|gg: int| 0 <= gg < gv1.len() implies #[trigger] gv1[gg]
                        == anagrams_of(svi1, gv1[gg][0]) by {
                        if gg < gv0.len() {
                            assert(gv1[gg] == gv0[gg]);
                            assert(!same_anagram(sv[si as int], gv0[gg][0]));
                            assert(anagrams_of(svi1, gv0[gg][0]) == anagrams_of(svi, gv0[gg][0]));
                        } else {
                            assert(gv1[gg] == seq![sv[si as int]]);
                            assert(gv1[gg][0] == sv[si as int]);
                        }
                    }
                    assert forall|k: int| 0 <= k < si + 1 implies exists|gg: int|
                        0 <= gg < gv1.len() && same_anagram(
                            #[trigger] sv[k],
                            (#[trigger] gv1[gg])[0],
                        ) by {
                        if k == si {
                            assert(gv1[gv0.len() as int][0] == sv[si as int]);
                            assert(same_anagram(sv[k], (gv1[gv0.len() as int])[0]));
                        } else {
                            let gg = choose|gg: int|
                                0 <= gg < gv0.len() && same_anagram(
                                    sv[k],
                                    (#[trigger] gv0[gg])[0],
                                );
                            assert(gv1[gg][0] == gv0[gg][0]);
                            assert(same_anagram(sv[k], (gv1[gg])[0]));
                        }
                    }
                }
            }
            si = si + 1;
        }
        proof {
            assert(sv.len() == strs@.len());
            assert(sv.take(sv.len() as int) =~= sv);
        }
        result
    }
}

fn is_space(c: char) -> (r: bool)
    ensures
        r == spec_is_space(c),
{
    unicode_blank(c)
}

} // verus!
