use vstd::prelude::*;

verus! {

// ---------------------------------------------------------------------------
// Specification of one line of the board, slid toward index 0.
//
// A move treats each row or column as a line whose index 0 lies at the wall
// the tiles slide toward. Sliding squeezes the empty cells out, then merges
// equal neighbours starting at the wall, each tile merging at most once, and
// pads the far end with empty cells.
// ---------------------------------------------------------------------------

/// The contents of an executable line (`u64` cell values) as a sequence of
/// unbounded integers; all line specifications are stated over `Seq<int>`.
pub open spec fn vals(s: Seq<u64>) -> Seq<int> {
    Seq::new(s.len(), |i: int| s[i] as int)
}

/// Every entry of the line is non-negative (true of every line read from a
/// board, whose cells hold unsigned values).
pub open spec fn nonneg_line(s: Seq<int>) -> bool {
    forall|i: int| 0 <= i < s.len() ==> s[i] >= 0
}

/// The non-zero entries of a line, in order: what remains after the empty
/// cells are squeezed out.
pub open spec fn nonzeros(s: Seq<int>) -> Seq<int>
    decreases s.len(),
{
    if s.len() == 0 {
        Seq::empty()
    } else if s[0] == 0 {
        nonzeros(s.skip(1))
    } else {
        seq![s[0]] + nonzeros(s.skip(1))
    }
}

/// One merge pass toward the front: the first two entries combine when they
/// are equal (so a tile merges at most once per move), otherwise the first
/// entry is kept as it is.
pub open spec fn merge_line(s: Seq<int>) -> Seq<int>
    decreases s.len(),
{
    if s.len() == 0 {
        Seq::empty()
    } else if s.len() >= 2 && s[0] == s[1] {
        seq![s[0] + s[1]] + merge_line(s.skip(2))
    } else {
        seq![s[0]] + merge_line(s.skip(1))
    }
}

/// The score gained by `merge_line`: the sum of all merged results.
pub open spec fn merge_gain(s: Seq<int>) -> int
    decreases s.len(),
{
    if s.len() == 0 {
        0
    } else if s.len() >= 2 && s[0] == s[1] {
        s[0] + s[1] + merge_gain(s.skip(2))
    } else {
        merge_gain(s.skip(1))
    }
}

/// A line of `n` empty cells.
pub open spec fn zero_line(n: nat) -> Seq<int> {
    Seq::new(n, |i: int| 0)
}

/// A full slide toward index 0: squeeze out the empty cells, merge equal
/// neighbours once each, and pad the far end with empty cells.
pub open spec fn slide_front(s: Seq<int>) -> Seq<int> {
    let kept = merge_line(nonzeros(s));
    kept + zero_line((s.len() - kept.len()) as nat)
}

/// The score gained by sliding the line toward index 0.
pub open spec fn slide_gain(s: Seq<int>) -> int {
    merge_gain(nonzeros(s))
}

/// The sum of all entries of a line.
pub open spec fn line_total(s: Seq<int>) -> int
    decreases s.len(),
{
    if s.len() == 0 {
        0
    } else {
        s[0] + line_total(s.skip(1))
    }
}

/// No tile of the line could merge with its neighbour: every adjacent pair
/// is unequal or empty.
pub open spec fn no_adjacent_merge(s: Seq<int>) -> bool {
    forall|i: int| 0 <= i && i + 1 < s.len() ==> (#[trigger] s[i] == 0 || s[i] != s[i + 1])
}

// ---------------------------------------------------------------------------
// Lemmas about nonzeros
// ---------------------------------------------------------------------------

pub proof fn lemma_nonzeros_concat(a: Seq<int>, b: Seq<int>)
    ensures
        nonzeros(a + b) == nonzeros(a) + nonzeros(b),
    decreases a.len(),
{
    if a.len() == 0 {
        assert(a + b =~= b);
        assert(nonzeros(a) + nonzeros(b) =~= nonzeros(b));
    } else {
        assert((a + b).skip(1) =~= a.skip(1) + b);
        lemma_nonzeros_concat(a.skip(1), b);
        if a[0] == 0 {
            assert(nonzeros(a + b) == nonzeros(a) + nonzeros(b));
        } else {
            assert(seq![a[0]] + (nonzeros(a.skip(1)) + nonzeros(b)) =~= (seq![a[0]] + nonzeros(
                a.skip(1),
            )) + nonzeros(b));
        }
    }
}

pub proof fn lemma_nonzeros_len(s: Seq<int>)
    ensures
        nonzeros(s).len() <= s.len(),
    decreases s.len(),
{
    if s.len() > 0 {
        lemma_nonzeros_len(s.skip(1));
    }
}

pub proof fn lemma_nonzeros_all_nonzero(s: Seq<int>)
    ensures
        forall|i: int| 0 <= i < nonzeros(s).len() ==> nonzeros(s)[i] != 0,
    decreases s.len(),
{
    if s.len() > 0 {
        lemma_nonzeros_all_nonzero(s.skip(1));
        if s[0] != 0 {
            assert forall|i: int| 0 <= i < nonzeros(s).len() implies nonzeros(s)[i] != 0 by {
                if i > 0 {
                    assert(nonzeros(s)[i] == nonzeros(s.skip(1))[i - 1]);
                }
            }
        } else {
            assert forall|i: int| 0 <= i < nonzeros(s).len() implies nonzeros(s)[i] != 0 by {
                assert(nonzeros(s)[i] == nonzeros(s.skip(1))[i]);
            }
        }
    }
}

pub proof fn lemma_nonzeros_nonneg(s: Seq<int>)
    requires
        nonneg_line(s),
    ensures
        nonneg_line(nonzeros(s)),
    decreases s.len(),
{
    if s.len() > 0 {
        assert(nonneg_line(s.skip(1))) by {
            assert forall|i: int| 0 <= i < s.skip(1).len() implies s.skip(1)[i] >= 0 by {
                assert(s.skip(1)[i] == s[i + 1]);
            }
        }
        lemma_nonzeros_nonneg(s.skip(1));
        if s[0] != 0 {
            assert forall|i: int| 0 <= i < nonzeros(s).len() implies nonzeros(s)[i] >= 0 by {
                if i > 0 {
                    assert(nonzeros(s)[i] == nonzeros(s.skip(1))[i - 1]);
                }
            }
        }
    }
}

pub proof fn lemma_all_zero_nonzeros_empty(s: Seq<int>)
    requires
        forall|i: int| 0 <= i < s.len() ==> s[i] == 0,
    ensures
        nonzeros(s) == Seq::<int>::empty(),
    decreases s.len(),
{
    if s.len() > 0 {
        assert forall|i: int| 0 <= i < s.skip(1).len() implies s.skip(1)[i] == 0 by {
            assert(s.skip(1)[i] == s[i + 1]);
        }
        lemma_all_zero_nonzeros_empty(s.skip(1));
    }
}

pub proof fn lemma_all_nonzero_nonzeros_id(s: Seq<int>)
    requires
        forall|i: int| 0 <= i < s.len() ==> s[i] != 0,
    ensures
        nonzeros(s) == s,
    decreases s.len(),
{
    if s.len() > 0 {
        assert forall|i: int| 0 <= i < s.skip(1).len() implies s.skip(1)[i] != 0 by {
            assert(s.skip(1)[i] == s[i + 1]);
        }
        lemma_all_nonzero_nonzeros_id(s.skip(1));
        assert(seq![s[0]] + s.skip(1) =~= s);
    }
}

// ---------------------------------------------------------------------------
// Lemmas about line_total
// ---------------------------------------------------------------------------

pub proof fn lemma_line_total_cons(x: int, t: Seq<int>)
    ensures
        line_total(seq![x] + t) == x + line_total(t),
{
    assert((seq![x] + t).skip(1) =~= t);
    assert((seq![x] + t)[0] == x);
}

pub proof fn lemma_line_total_concat(a: Seq<int>, b: Seq<int>)
    ensures
        line_total(a + b) == line_total(a) + line_total(b),
    decreases a.len(),
{
    if a.len() == 0 {
        assert(a + b =~= b);
    } else {
        assert((a + b).skip(1) =~= a.skip(1) + b);
        lemma_line_total_concat(a.skip(1), b);
    }
}

pub proof fn lemma_line_total_nonneg(s: Seq<int>)
    requires
        nonneg_line(s),
    ensures
        line_total(s) >= 0,
    decreases s.len(),
{
    if s.len() > 0 {
        assert forall|i: int| 0 <= i < s.skip(1).len() implies s.skip(1)[i] >= 0 by {
            assert(s.skip(1)[i] == s[i + 1]);
        }
        lemma_line_total_nonneg(s.skip(1));
    }
}

pub proof fn lemma_line_total_skip_le(s: Seq<int>, k: int)
    requires
        nonneg_line(s),
        0 <= k <= s.len(),
    ensures
        0 <= line_total(s.skip(k)) <= line_total(s),
    decreases k,
{
    assert(nonneg_line(s.skip(k))) by {
        assert forall|i: int| 0 <= i < s.skip(k).len() implies s.skip(k)[i] >= 0 by {
            assert(s.skip(k)[i] == s[i + k]);
        }
    }
    lemma_line_total_nonneg(s.skip(k));
    if k == 0 {
        assert(s.skip(0) =~= s);
    } else {
        assert(nonneg_line(s.skip(1))) by {
            assert forall|i: int| 0 <= i < s.skip(1).len() implies s.skip(1)[i] >= 0 by {
                assert(s.skip(1)[i] == s[i + 1]);
            }
        }
        assert(s.skip(1).skip(k - 1) =~= s.skip(k));
        lemma_line_total_skip_le(s.skip(1), k - 1);
    }
}

pub proof fn lemma_pair_le_total(s: Seq<int>, i: int)
    requires
        nonneg_line(s),
        0 <= i,
        i + 1 < s.len(),
    ensures
        s[i] + s[i + 1] <= line_total(s),
{
    lemma_line_total_skip_le(s, i);
    let t = s.skip(i);
    assert(t[0] == s[i]);
    assert(t.skip(1) =~= s.skip(i + 1));
    assert(line_total(t) == t[0] + line_total(t.skip(1)));
    assert(s.skip(i + 1)[0] == s[i + 1]);
    assert(s.skip(i + 1).skip(1) =~= s.skip(i + 2));
    assert(line_total(s.skip(i + 1)) == s[i + 1] + line_total(s.skip(i + 2)));
    lemma_line_total_skip_le(s, i + 2);
}

pub proof fn lemma_line_total_drop_last(s: Seq<int>)
    requires
        s.len() > 0,
    ensures
        line_total(s) == line_total(s.drop_last()) + s.last(),
    decreases s.len(),
{
    if s.len() == 1 {
        assert(s.drop_last() =~= Seq::<int>::empty());
        assert(s.skip(1) =~= Seq::<int>::empty());
        assert(line_total(Seq::<int>::empty()) == 0);
        assert(s.last() == s[0]);
    } else {
        lemma_line_total_drop_last(s.skip(1));
        assert(s.skip(1).last() == s.last());
        assert(s.skip(1).drop_last() =~= s.drop_last().skip(1));
        assert(line_total(s.drop_last()) == s.drop_last()[0] + line_total(s.drop_last().skip(1)));
        assert(s.drop_last()[0] == s[0]);
    }
}

pub proof fn lemma_line_total_reverse(s: Seq<int>)
    ensures
        line_total(s.reverse()) == line_total(s),
    decreases s.len(),
{
    if s.len() > 0 {
        lemma_line_total_reverse(s.drop_last());
        lemma_line_total_drop_last(s);
        assert(s.reverse()[0] == s.last());
        assert(s.reverse().skip(1) =~= s.drop_last().reverse());
        assert(line_total(s.reverse()) == s.last() + line_total(s.drop_last().reverse()));
    }
}

/// Every entry of a reversed non-negative line is non-negative.
pub proof fn lemma_nonneg_reverse(s: Seq<int>)
    requires
        nonneg_line(s),
    ensures
        nonneg_line(s.reverse()),
{
    assert forall|i: int| 0 <= i < s.reverse().len() implies s.reverse()[i] >= 0 by {
        assert(s.reverse()[i] == s[s.len() - 1 - i]);
    }
}

// ---------------------------------------------------------------------------
// Lemmas about merge_line and merge_gain
// ---------------------------------------------------------------------------

pub proof fn lemma_merge_len(s: Seq<int>)
    ensures
        merge_line(s).len() <= s.len(),
    decreases s.len(),
{
    if s.len() >= 2 && s[0] == s[1] {
        lemma_merge_len(s.skip(2));
    } else if s.len() > 0 {
        lemma_merge_len(s.skip(1));
    }
}

pub proof fn lemma_merge_total(s: Seq<int>)
    ensures
        line_total(merge_line(s)) == line_total(s),
    decreases s.len(),
{
    if s.len() >= 2 && s[0] == s[1] {
        lemma_merge_total(s.skip(2));
        lemma_line_total_cons(s[0] + s[1], merge_line(s.skip(2)));
        assert(s.skip(1)[0] == s[1]);
        assert(s.skip(1).skip(1) =~= s.skip(2));
        assert(line_total(s.skip(1)) == s.skip(1)[0] + line_total(s.skip(1).skip(1)));
        assert(line_total(s) == s[0] + s[1] + line_total(s.skip(2)));
    } else if s.len() > 0 {
        lemma_merge_total(s.skip(1));
        lemma_line_total_cons(s[0], merge_line(s.skip(1)));
    }
}

pub proof fn lemma_merge_all_nonzero(s: Seq<int>)
    requires
        forall|i: int| 0 <= i < s.len() ==> s[i] != 0,
    ensures
        forall|i: int| 0 <= i < merge_line(s).len() ==> merge_line(s)[i] != 0,
    decreases s.len(),
{
    if s.len() >= 2 && s[0] == s[1] {
        assert forall|i: int| 0 <= i < s.skip(2).len() implies s.skip(2)[i] != 0 by {
            assert(s.skip(2)[i] == s[i + 2]);
        }
        lemma_merge_all_nonzero(s.skip(2));
        assert forall|i: int| 0 <= i < merge_line(s).len() implies merge_line(s)[i] != 0 by {
            if i > 0 {
                assert(merge_line(s)[i] == merge_line(s.skip(2))[i - 1]);
            }
        }
    } else if s.len() > 0 {
        assert forall|i: int| 0 <= i < s.skip(1).len() implies s.skip(1)[i] != 0 by {
            assert(s.skip(1)[i] == s[i + 1]);
        }
        lemma_merge_all_nonzero(s.skip(1));
        assert forall|i: int| 0 <= i < merge_line(s).len() implies merge_line(s)[i] != 0 by {
            if i > 0 {
                assert(merge_line(s)[i] == merge_line(s.skip(1))[i - 1]);
            }
        }
    }
}

pub proof fn lemma_merge_nonneg(s: Seq<int>)
    requires
        nonneg_line(s),
    ensures
        nonneg_line(merge_line(s)),
    decreases s.len(),
{
    if s.len() >= 2 && s[0] == s[1] {
        assert(nonneg_line(s.skip(2))) by {
            assert forall|i: int| 0 <= i < s.skip(2).len() implies s.skip(2)[i] >= 0 by {
                assert(s.skip(2)[i] == s[i + 2]);
            }
        }
        lemma_merge_nonneg(s.skip(2));
        assert forall|i: int| 0 <= i < merge_line(s).len() implies merge_line(s)[i] >= 0 by {
            if i > 0 {
                assert(merge_line(s)[i] == merge_line(s.skip(2))[i - 1]);
            }
        }
    } else if s.len() > 0 {
        assert(nonneg_line(s.skip(1))) by {
            assert forall|i: int| 0 <= i < s.skip(1).len() implies s.skip(1)[i] >= 0 by {
                assert(s.skip(1)[i] == s[i + 1]);
            }
        }
        lemma_merge_nonneg(s.skip(1));
        assert forall|i: int| 0 <= i < merge_line(s).len() implies merge_line(s)[i] >= 0 by {
            if i > 0 {
                assert(merge_line(s)[i] == merge_line(s.skip(1))[i - 1]);
            }
        }
    }
}

pub proof fn lemma_merge_gain_bounds(s: Seq<int>)
    requires
        nonneg_line(s),
    ensures
        0 <= merge_gain(s) <= line_total(s),
    decreases s.len(),
{
    if s.len() >= 2 && s[0] == s[1] {
        assert(nonneg_line(s.skip(2))) by {
            assert forall|i: int| 0 <= i < s.skip(2).len() implies s.skip(2)[i] >= 0 by {
                assert(s.skip(2)[i] == s[i + 2]);
            }
        }
        lemma_merge_gain_bounds(s.skip(2));
        assert(s.skip(1)[0] == s[1]);
        assert(s.skip(1).skip(1) =~= s.skip(2));
        assert(line_total(s.skip(1)) == s.skip(1)[0] + line_total(s.skip(1).skip(1)));
        assert(line_total(s) == s[0] + s[1] + line_total(s.skip(2)));
    } else if s.len() > 0 {
        assert(nonneg_line(s.skip(1))) by {
            assert forall|i: int| 0 <= i < s.skip(1).len() implies s.skip(1)[i] >= 0 by {
                assert(s.skip(1)[i] == s[i + 1]);
            }
        }
        lemma_merge_gain_bounds(s.skip(1));
    }
}

/// A line with no equal adjacent entries is left exactly as it is by the
/// merge pass, and yields no score.
pub proof fn lemma_merge_identity(s: Seq<int>)
    requires
        forall|i: int| 0 <= i && i + 1 < s.len() ==> #[trigger] s[i] != s[i + 1],
    ensures
        merge_line(s) == s,
        merge_gain(s) == 0,
    decreases s.len(),
{
    if s.len() > 0 {
        assert forall|i: int| 0 <= i && i + 1 < s.skip(1).len() implies #[trigger] s.skip(1)[i]
            != s.skip(1)[i + 1] by {
            assert(s.skip(1)[i] == s[i + 1]);
            assert(s.skip(1)[i + 1] == s[i + 2]);
        }
        lemma_merge_identity(s.skip(1));
        assert(seq![s[0]] + s.skip(1) =~= s);
    }
}

// ---------------------------------------------------------------------------
// Lemmas about slide_front
// ---------------------------------------------------------------------------

pub proof fn lemma_slide_len(s: Seq<int>)
    ensures
        slide_front(s).len() == s.len(),
{
    lemma_nonzeros_len(s);
    lemma_merge_len(nonzeros(s));
}

pub proof fn lemma_zero_line_total(n: nat)
    ensures
        line_total(zero_line(n)) == 0,
    decreases n,
{
    if n > 0 {
        assert(zero_line(n).skip(1) =~= zero_line((n - 1) as nat));
        lemma_zero_line_total((n - 1) as nat);
    }
}

pub proof fn lemma_slide_total(s: Seq<int>)
    ensures
        line_total(slide_front(s)) == line_total(s),
{
    let kept = merge_line(nonzeros(s));
    lemma_nonzeros_len(s);
    lemma_merge_len(nonzeros(s));
    lemma_nonzeros_total(s);
    lemma_merge_total(nonzeros(s));
    lemma_line_total_concat(kept, zero_line((s.len() - kept.len()) as nat));
    lemma_zero_line_total((s.len() - kept.len()) as nat);
}

pub proof fn lemma_nonzeros_total(s: Seq<int>)
    ensures
        line_total(nonzeros(s)) == line_total(s),
    decreases s.len(),
{
    if s.len() > 0 {
        lemma_nonzeros_total(s.skip(1));
        if s[0] != 0 {
            lemma_line_total_cons(s[0], nonzeros(s.skip(1)));
        }
    }
}

pub proof fn lemma_slide_gain_bounds(s: Seq<int>)
    requires
        nonneg_line(s),
    ensures
        0 <= slide_gain(s) <= line_total(s),
{
    lemma_nonzeros_nonneg(s);
    lemma_nonzeros_total(s);
    lemma_merge_gain_bounds(nonzeros(s));
}

pub proof fn lemma_slide_nonneg(s: Seq<int>)
    requires
        nonneg_line(s),
    ensures
        nonneg_line(slide_front(s)),
{
    let kept = merge_line(nonzeros(s));
    lemma_nonzeros_nonneg(s);
    lemma_merge_nonneg(nonzeros(s));
    lemma_nonzeros_len(s);
    lemma_merge_len(nonzeros(s));
    assert forall|i: int| 0 <= i < slide_front(s).len() implies slide_front(s)[i] >= 0 by {
        if i < kept.len() {
            assert(slide_front(s)[i] == kept[i]);
        } else {
            assert(slide_front(s)[i] == 0);
        }
    }
}

/// A slid line that offers no further merge slides to itself: sliding it
/// again changes nothing and yields no score.
pub proof fn lemma_slide_front_stable(s: Seq<int>)
    requires
        no_adjacent_merge(slide_front(s)),
    ensures
        slide_front(slide_front(s)) == slide_front(s),
        slide_gain(slide_front(s)) == 0,
{
    let nz = nonzeros(s);
    let kept = merge_line(nz);
    let slid = slide_front(s);
    lemma_nonzeros_len(s);
    lemma_merge_len(nz);
    lemma_nonzeros_all_nonzero(s);
    lemma_merge_all_nonzero(nz);
    // The non-zero entries of the slid line are exactly `kept`.
    lemma_nonzeros_concat(kept, zero_line((s.len() - kept.len()) as nat));
    lemma_all_zero_nonzeros_empty(zero_line((s.len() - kept.len()) as nat));
    lemma_all_nonzero_nonzeros_id(kept);
    assert(nonzeros(slid) =~= kept);
    // `kept` has no equal adjacent entries, so merging it again is the identity.
    assert forall|i: int| 0 <= i && i + 1 < kept.len() implies #[trigger] kept[i] != kept[i + 1] by {
        assert(slid[i] == kept[i]);
        assert(slid[i + 1] == kept[i + 1]);
        assert(kept[i] != 0);
    }
    lemma_merge_identity(kept);
    assert(slide_front(slid) =~= slid);
}

/// A line whose only tiles are two equal adjacent values, slid toward them,
/// becomes a single cell holding their sum with every other cell empty, and
/// the score gained is exactly that sum.
pub proof fn lemma_two_tiles_merge(s: Seq<int>, i: int)
    requires
        0 <= i,
        i + 1 < s.len(),
        s[i] != 0,
        s[i] == s[i + 1],
        forall|j: int| 0 <= j < s.len() && j != i && j != i + 1 ==> #[trigger] s[j] == 0,
    ensures
        slide_front(s).len() == s.len(),
        slide_front(s)[0] == s[i] + s[i + 1],
        forall|k: int| 1 <= k < s.len() ==> #[trigger] slide_front(s)[k] == 0,
        slide_gain(s) == s[i] + s[i + 1],
{
    let v = s[i];
    let pre = s.take(i);
    let mids = seq![v, v];
    let post = s.skip(i + 2);
    assert(s =~= (pre + mids) + post);
    lemma_nonzeros_concat(pre + mids, post);
    lemma_nonzeros_concat(pre, mids);
    assert forall|j: int| 0 <= j < pre.len() implies pre[j] == 0 by {
        assert(pre[j] == s[j]);
    }
    assert forall|j: int| 0 <= j < post.len() implies post[j] == 0 by {
        assert(post[j] == s[j + i + 2]);
    }
    lemma_all_zero_nonzeros_empty(pre);
    lemma_all_zero_nonzeros_empty(post);
    assert forall|j: int| 0 <= j < mids.len() implies mids[j] != 0 by {}
    lemma_all_nonzero_nonzeros_id(mids);
    assert(nonzeros(s) =~= mids);
    assert(mids.skip(2) =~= Seq::<int>::empty());
    assert(merge_line(Seq::<int>::empty()) == Seq::<int>::empty());
    assert(merge_gain(Seq::<int>::empty()) == 0);
    assert(merge_line(mids) =~= seq![v + v]);
    assert(merge_gain(mids) == v + v);
    lemma_slide_len(s);
    assert(slide_front(s) =~= seq![v + v] + zero_line((s.len() - 1) as nat));
    assert(slide_front(s)[0] == v + v);
    assert forall|k: int| 1 <= k < s.len() implies #[trigger] slide_front(s)[k] == 0 by {
        assert(slide_front(s)[k] == zero_line((s.len() - 1) as nat)[k - 1]);
    }
}

/// A merge pass over a line with exactly one equal adjacent pair combines
/// that pair alone: every other entry is kept, in order, and the score is
/// exactly the pair's sum.
pub proof fn lemma_merge_single_pair(t: Seq<int>, p: int)
    requires
        0 <= p,
        p + 1 < t.len(),
        t[p] == t[p + 1],
        forall|i: int| 0 <= i && i + 1 < t.len() && i != p ==> #[trigger] t[i] != t[i + 1],
    ensures
        merge_line(t) == t.take(p) + seq![t[p] + t[p + 1]] + t.skip(p + 2),
        merge_gain(t) == t[p] + t[p + 1],
    decreases p,
{
    if p == 0 {
        assert(merge_line(t) == seq![t[0] + t[1]] + merge_line(t.skip(2)));
        assert(merge_gain(t) == t[0] + t[1] + merge_gain(t.skip(2)));
        assert forall|i: int| 0 <= i && i + 1 < t.skip(2).len() implies #[trigger] t.skip(2)[i]
            != t.skip(2)[i + 1] by {
            assert(t.skip(2)[i] == t[i + 2]);
            assert(t.skip(2)[i + 1] == t[i + 3]);
        }
        lemma_merge_identity(t.skip(2));
        assert(t.take(0) + seq![t[0] + t[1]] + t.skip(2) =~= seq![t[0] + t[1]] + t.skip(2));
    } else {
        let u = t.skip(1);
        assert(t[0] != t[1]);
        assert(merge_line(t) == seq![t[0]] + merge_line(u));
        assert(merge_gain(t) == merge_gain(u));
        assert(u[p - 1] == t[p]);
        assert(u[p] == t[p + 1]);
        assert forall|i: int| 0 <= i && i + 1 < u.len() && i != p - 1 implies #[trigger] u[i] != u[i
            + 1] by {
            assert(u[i] == t[i + 1]);
            assert(u[i + 1] == t[i + 2]);
        }
        lemma_merge_single_pair(u, p - 1);
        assert(u.take(p - 1) =~= t.take(p).skip(1));
        assert(u.skip(p + 1) =~= t.skip(p + 2));
        assert(seq![t[0]] + (u.take(p - 1) + seq![u[p - 1] + u[p]] + u.skip(p + 1)) =~= t.take(p)
            + seq![t[p] + t[p + 1]] + t.skip(p + 2));
    }
}

/// A line whose squeezed tiles hold exactly one equal adjacent pair, slid
/// toward the wall, merges that pair alone: the result is every other tile
/// kept in order, packed against the wall around the merged sum, with empty
/// cells behind; the score gained is exactly the pair's sum. (The condition
/// speaks of the squeezed line — the tiles with the empty cells removed —
/// which is where adjacency matters to a merge.)
pub proof fn lemma_single_pair_slide(s: Seq<int>, p: int)
    requires
        0 <= p,
        p + 1 < nonzeros(s).len(),
        nonzeros(s)[p] == nonzeros(s)[p + 1],
        forall|i: int|
            0 <= i && i + 1 < nonzeros(s).len() && i != p ==> #[trigger] nonzeros(s)[i]
                != nonzeros(s)[i + 1],
    ensures
        slide_front(s) == (nonzeros(s).take(p) + seq![nonzeros(s)[p] + nonzeros(s)[p + 1]]
            + nonzeros(s).skip(p + 2)) + zero_line((s.len() - (nonzeros(s).len() - 1)) as nat),
        slide_gain(s) == nonzeros(s)[p] + nonzeros(s)[p + 1],
{
    lemma_nonzeros_len(s);
    lemma_merge_single_pair(nonzeros(s), p);
}

// ---------------------------------------------------------------------------
// Executable slide of one line
// ---------------------------------------------------------------------------

/// Slide one line of cell values toward index 0. Returns the slid line, the
/// score gained by merges, and whether anything changed.
pub fn slide_line(line: &Vec<u64>) -> (res: (Vec<u64>, u64, bool))
    requires
        line_total(vals(line@)) <= u64::MAX,
    ensures
        vals(res.0@) == slide_front(vals(line@)),
        res.0@.len() == line@.len(),
        res.1 as int == slide_gain(vals(line@)),
        res.2 <==> vals(res.0@) != vals(line@),
{
    let n = line.len();
    let ghost ls = vals(line@);
    proof {
        assert(nonneg_line(ls));
    }
    // Squeeze out the empty cells.
    let mut buf: Vec<u64> = Vec::new();
    let mut i: usize = 0;
    while i < n
        invariant
            i <= n,
            n == line@.len(),
            ls == vals(line@),
            vals(buf@) == nonzeros(ls.take(i as int)),
        decreases n - i,
    {
        let v = line[i];
        proof {
            lemma_nonzeros_concat(ls.take(i as int), seq![ls[i as int]]);
            assert(ls.take(i as int + 1) =~= ls.take(i as int) + seq![ls[i as int]]);
            assert(seq![ls[i as int]].skip(1) =~= Seq::<int>::empty());
            assert(nonzeros(Seq::<int>::empty()) == Seq::<int>::empty());
            if ls[i as int] != 0 {
                assert(nonzeros(seq![ls[i as int]]) =~= seq![ls[i as int]]);
            } else {
                assert(nonzeros(seq![ls[i as int]]) == Seq::<int>::empty());
            }
        }
        let ghost pre = vals(buf@);
        if v != 0 {
            buf.push(v);
            proof {
                assert(vals(buf@) =~= pre + seq![ls[i as int]]);
            }
        } else {
            proof {
                assert(pre + Seq::<int>::empty() =~= pre);
            }
        }
        proof {
            assert(vals(buf@) =~= nonzeros(ls.take(i as int + 1)));
        }
        i += 1;
    }
    proof {
        assert(ls.take(n as int) =~= ls);
    }
    // Merge equal neighbours, each entry at most once, front first.
    let m = buf.len();
    let ghost bs = vals(buf@);
    proof {
        lemma_nonzeros_nonneg(ls);
        lemma_nonzeros_total(ls);
        lemma_nonzeros_len(ls);
        lemma_merge_gain_bounds(bs);
    }
    let mut out: Vec<u64> = Vec::new();
    let mut gain: u64 = 0;
    let mut j: usize = 0;
    proof {
        assert(bs.skip(0) =~= bs);
        assert(vals(out@) =~= Seq::<int>::empty());
        assert(Seq::<int>::empty() + merge_line(bs) =~= merge_line(bs));
    }
    while j < m
        invariant
            j <= m,
            m == buf@.len(),
            bs == vals(buf@),
            nonneg_line(bs),
            line_total(bs) <= u64::MAX,
            merge_line(bs) == vals(out@) + merge_line(bs.skip(j as int)),
            merge_gain(bs) == gain + merge_gain(bs.skip(j as int)),
            gain as int == merge_gain(bs) - merge_gain(bs.skip(j as int)),
        decreases m - j,
    {
        let ghost t = bs.skip(j as int);
        proof {
            assert(t.len() == m - j);
            assert(t[0] == bs[j as int]);
            assert(nonneg_line(t)) by {
                assert forall|k: int| 0 <= k < t.len() implies t[k] >= 0 by {
                    assert(t[k] == bs[k + j]);
                }
            }
            lemma_line_total_skip_le(bs, j as int);
            lemma_merge_gain_bounds(bs);
        }
        if j + 1 < m && buf[j] == buf[j + 1] {
            proof {
                assert(t[1] == bs[j as int + 1]);
                assert(t.skip(2) =~= bs.skip(j as int + 2));
                assert(merge_line(t) == seq![t[0] + t[1]] + merge_line(bs.skip(j as int + 2)));
                assert(merge_gain(t) == t[0] + t[1] + merge_gain(bs.skip(j as int + 2)));
                lemma_pair_le_total(t, 0);
                assert(nonneg_line(bs.skip(j as int + 2))) by {
                    assert forall|k: int| 0 <= k < bs.skip(j as int + 2).len() implies #[trigger] bs
                        .skip(j as int + 2)[k] >= 0 by {
                        assert(bs.skip(j as int + 2)[k] == bs[k + j + 2]);
                    }
                }
                lemma_merge_gain_bounds(bs.skip(j as int + 2));
                lemma_merge_gain_bounds(t);
            }
            let ghost pre = vals(out@);
            let s = buf[j] + buf[j + 1];
            out.push(s);
            gain = gain + s;
            j = j + 2;
            proof {
                assert(vals(out@) =~= pre + seq![s as int]);
                assert((pre + seq![s as int]) + merge_line(bs.skip(j as int)) =~= pre + (seq![
                    s as int,
                ] + merge_line(bs.skip(j as int))));
            }
        } else {
            proof {
                assert(t.skip(1) =~= bs.skip(j as int + 1));
                assert(merge_line(t) == seq![t[0]] + merge_line(bs.skip(j as int + 1)));
                assert(merge_gain(t) == merge_gain(bs.skip(j as int + 1)));
            }
            let ghost pre = vals(out@);
            let v = buf[j];
            out.push(v);
            j = j + 1;
            proof {
                assert(vals(out@) =~= pre + seq![v as int]);
                assert((pre + seq![v as int]) + merge_line(bs.skip(j as int)) =~= pre + (seq![
                    v as int,
                ] + merge_line(bs.skip(j as int))));
            }
        }
    }
    proof {
        assert(bs.skip(m as int) =~= Seq::<int>::empty());
        assert(vals(out@) + merge_line(Seq::<int>::empty()) =~= vals(out@));
        assert(vals(out@) == merge_line(bs));
        lemma_merge_len(bs);
    }
    // Pad the far end with empty cells.
    let ghost kept = merge_line(bs);
    proof {
        assert(kept + zero_line(0) =~= kept);
    }
    while out.len() < n
        invariant
            n == line@.len(),
            kept == merge_line(bs),
            kept.len() <= out@.len() <= n,
            vals(out@) == kept + zero_line((out@.len() - kept.len()) as nat),
        decreases n - out.len(),
    {
        let ghost pre = vals(out@);
        out.push(0);
        proof {
            assert(vals(out@) =~= pre + seq![0int]);
            assert(vals(out@) =~= kept + zero_line((out@.len() - kept.len()) as nat));
        }
    }
    proof {
        assert(vals(out@) =~= kept + zero_line((out@.len() - kept.len()) as nat));
        assert(vals(out@) == slide_front(ls));
        lemma_slide_len(ls);
    }
    // Report whether anything changed.
    let mut moved = false;
    let mut k: usize = 0;
    while k < n
        invariant
            k <= n,
            n == line@.len(),
            n == out@.len(),
            moved <==> exists|d: int| 0 <= d < k && out@[d] != line@[d],
        decreases n - k,
    {
        if out[k] != line[k] {
            moved = true;
            proof {
                assert(out@[k as int] != line@[k as int]);
            }
        }
        k += 1;
    }
    proof {
        if moved {
            let d = choose|d: int| 0 <= d < n && out@[d] != line@[d];
            assert(vals(out@)[d] != vals(line@)[d]);
        } else {
            assert(vals(out@) =~= vals(line@));
        }
    }
    (out, gain, moved)
}

} // verus!
