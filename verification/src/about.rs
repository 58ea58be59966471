//! The pictures of the about window: which of them are kept decoded.

use crate::numbers::{all_digits, decimal, decimal_is_digits, decimal_text, digits_value};
use crate::text::{concat2, ends_in, has_extension, is_extension};
use vstd::prelude::*;
use vstd::string::*;

verus! {

/// Fewest pictures that are kept.
pub const FRAME_CACHE_MIN_CAP: usize = 12;

/// Most pictures that are kept.
pub const FRAME_CACHE_MAX_CAP: usize = 256;

/// How many pictures are kept of an animation: all of them, within limits.
pub fn cache_cap(frames: usize) -> (cap: usize)
    ensures
        cap == if frames < FRAME_CACHE_MIN_CAP {
            FRAME_CACHE_MIN_CAP
        } else if frames > FRAME_CACHE_MAX_CAP {
            FRAME_CACHE_MAX_CAP
        } else {
            frames
        },
{
    if frames < FRAME_CACHE_MIN_CAP {
        FRAME_CACHE_MIN_CAP
    } else if frames > FRAME_CACHE_MAX_CAP {
        FRAME_CACHE_MAX_CAP
    } else {
        frames
    }
}

/// Whether a file is a picture of the animation.
pub fn is_frame_file(name: &str) -> (res: bool)
    ensures
        res == (has_extension(name@, "jpg"@) || has_extension(name@, "jpeg"@)),
{
    is_extension(name, "jpg") || is_extension(name, "jpeg")
}

/// The picture that is shown at a tick of the animation.
pub fn frame_at(tick: usize, frames: usize) -> (i: usize)
    requires
        frames > 0,
    ensures
        i == tick % frames,
        i < frames,
{
    tick % frames
}

/// The number of a picture, in at least three digits.
pub open spec fn padded(n: nat) -> Seq<char> {
    if n < 10 {
        "00"@ + decimal(n)
    } else if n < 100 {
        "0"@ + decimal(n)
    } else {
        decimal(n)
    }
}

/// The name that a picture is decoded under.
pub fn frame_name(i: u64) -> (out: String)
    ensures
        out@ == "bt-frame-"@ + padded(i as nat),
{
    let digits = decimal_text(i);
    let number = if i < 10 {
        concat2("00", digits.as_str())
    } else if i < 100 {
        concat2("0", digits.as_str())
    } else {
        digits
    };
    concat2("bt-frame-", number.as_str())
}

/// The pictures that are kept, the one used last at the end.
pub struct FrameCache {
    order: Vec<usize>,
    cap: usize,
}

/// What a use of a picture comes to.
pub struct Touch {
    /// The picture was kept already.
    pub hit: bool,
    /// The picture that is not kept any longer.
    pub evicted: Option<usize>,
}

/// `order` without `x`.
pub open spec fn without(order: Seq<usize>, x: usize) -> Seq<usize> {
    order.filter(|y: usize| y != x)
}

/// What is kept after the use of a picture, and what is given up.
pub open spec fn touched(order: Seq<usize>, cap: int, idx: usize) -> (Seq<usize>, Option<usize>) {
    let all = without(order, idx).push(idx);
    if all.len() > cap {
        (all.drop_first(), Some(all[0]))
    } else {
        (all, None)
    }
}

impl FrameCache {
    /// The pictures that are kept, from the one not used for longest.
    pub closed spec fn order(&self) -> Seq<usize> {
        self.order@
    }

    /// How many are kept at most.
    pub closed spec fn cap(&self) -> usize {
        self.cap
    }

    /// No picture is kept twice, and not more than the limit.
    pub open spec fn is_sound(&self) -> bool {
        &&& self.order().no_duplicates()
        &&& self.order().len() <= self.cap()
        &&& self.cap() >= FRAME_CACHE_MIN_CAP
    }

    /// Nothing is kept yet of an animation of so many pictures.
    pub fn new(frames: usize) -> (out: FrameCache)
        ensures
            out.is_sound(),
            out.order() == Seq::<usize>::empty(),
            out.cap() == if frames < FRAME_CACHE_MIN_CAP {
                FRAME_CACHE_MIN_CAP
            } else if frames > FRAME_CACHE_MAX_CAP {
                FRAME_CACHE_MAX_CAP
            } else {
                frames
            },
    {
        FrameCache { order: Vec::new(), cap: cache_cap(frames) }
    }

    fn position(&self, idx: usize) -> (res: Option<usize>)
        ensures
            match res {
                Some(i) => i < self.order().len() && self.order()[i as int] == idx,
                None => !self.order().contains(idx),
            },
    {
        for i in 0..self.order.len()
            invariant
                forall|k: int| 0 <= k < i ==> self.order@[k] != idx,
        {
            if self.order[i] == idx {
                return Some(i);
            }
        }
        None
    }

    /// Uses a picture. It becomes the one used last; where it was not kept and the
    /// limit is passed, the one not used for longest is given up.
    pub fn touch(&mut self, idx: usize) -> (out: Touch)
        requires
            old(self).is_sound(),
        ensures
            final(self).is_sound(),
            final(self).cap() == old(self).cap(),
            out.hit == old(self).order().contains(idx),
            (final(self).order(), out.evicted) == touched(
                old(self).order(),
                old(self).cap() as int,
                idx,
            ),
            ({
                let all = without(old(self).order(), idx).push(idx);
                if all.len() > old(self).cap() {
                    &&& out.evicted == Some(all[0])
                    &&& final(self).order() == all.drop_first()
                } else {
                    &&& out.evicted is None
                    &&& final(self).order() == all
                }
            }),
    {
        let ghost before = self.order@;
        match self.position(idx) {
            Some(i) => {
                self.order.remove(i);
                self.order.push(idx);
                proof {
                    lemma_without(before, i as int);
                    assert(self.order@ =~= without(before, idx).push(idx));
                    lemma_pushed(before.remove(i as int), idx);
                }
                Touch { hit: true, evicted: None }
            },
            None => {
                self.order.push(idx);
                proof {
                    lemma_absent(before, idx);
                    lemma_pushed(before, idx);
                }
                if self.order.len() > self.cap {
                    let oldest: usize = self.order.remove(0);
                    proof {
                        assert(self.order@ =~= before.push(idx).drop_first());
                        assert(self.order@.no_duplicates());
                    }
                    Touch { hit: false, evicted: Some(oldest) }
                } else {
                    Touch { hit: false, evicted: None }
                }
            },
        }
    }
}

proof fn lemma_absent(order: Seq<usize>, x: usize)
    requires
        !order.contains(x),
    ensures
        without(order, x) == order,
    decreases order.len(),
{
    reveal(Seq::filter);
    if order.len() > 0 {
        let last = order.last();
        assert(order[order.len() - 1] == last);
        assert forall|i: int| 0 <= i < order.drop_last().len() implies order.drop_last()[i] != x by {
            assert(order[i] == order.drop_last()[i]);
        }
        lemma_absent(order.drop_last(), x);
        assert(order =~= order.drop_last().push(last));
    } else {
        assert(without(order, x) =~= order);
    }
}

proof fn lemma_without(order: Seq<usize>, i: int)
    requires
        order.no_duplicates(),
        0 <= i < order.len(),
    ensures
        without(order, order[i]) == order.remove(i),
        !order.remove(i).contains(order[i]),
        order.remove(i).no_duplicates(),
    decreases order.len(),
{
    reveal(Seq::filter);
    let x = order[i];
    let rest = order.remove(i);
    assert forall|k: int| 0 <= k < rest.len() implies rest[k] != x by {
        if k < i {
            assert(rest[k] == order[k]);
        } else {
            assert(rest[k] == order[k + 1]);
        }
    }
    assert forall|a: int, b: int| 0 <= a < rest.len() && 0 <= b < rest.len() && a != b implies
        rest[a] != rest[b] by {
        let p = if a < i {
            a
        } else {
            a + 1
        };
        let q = if b < i {
            b
        } else {
            b + 1
        };
        assert(rest[a] == order[p] && rest[b] == order[q]);
    }
    let front = order.drop_last();
    if i == order.len() - 1 {
        assert forall|k: int| 0 <= k < front.len() implies front[k] != x by {
            assert(front[k] == order[k]);
        }
        lemma_absent(front, x);
        assert(rest =~= front);
    } else {
        assert forall|a: int, b: int| 0 <= a < front.len() && 0 <= b < front.len() && a
            != b implies front[a] != front[b] by {
            assert(order[a] != order[b]);
        }
        assert(front[i] == x);
        lemma_without(front, i);
        assert(order.last() == order[order.len() - 1]);
        assert(front.remove(i).push(order.last()) =~= rest);
    }
}

proof fn lemma_pushed(order: Seq<usize>, x: usize)
    requires
        order.no_duplicates(),
        !order.contains(x),
    ensures
        order.push(x).no_duplicates(),
{
    let all = order.push(x);
    assert forall|a: int, b: int| 0 <= a < all.len() && 0 <= b < all.len() && a != b implies all[a]
        != all[b] by {
        if a < order.len() && b < order.len() {
            assert(order[a] != order[b]);
        } else if a < order.len() {
            assert(order.contains(order[a]));
        } else {
            assert(order.contains(order[b]));
        }
    }
}

/// Numbers of pictures are digits, three of them or more, and the number itself behind
/// any zeros; so different pictures have different names.
pub proof fn picture_numbers_differ(n: nat, m: nat)
    ensures
        padded(n).len() >= 3,
        all_digits(padded(n)),
        ends_in(padded(n), decimal(n)),
        digits_value(padded(n)) == n,
        padded(n) == padded(m) <==> n == m,
{
    lemma_padded(n);
    lemma_padded(m);
}

proof fn lemma_padded(n: nat)
    ensures
        padded(n).len() >= 3,
        all_digits(padded(n)),
        ends_in(padded(n), decimal(n)),
        digits_value(padded(n)) == n,
{
    reveal_strlit("0");
    reveal_strlit("00");
    decimal_is_digits(n);
    let d = decimal(n);
    let p = padded(n);
    assert(p.subrange(p.len() - d.len(), p.len() as int) =~= d);
    if n < 10 {
        reveal_with_fuel(decimal, 2);
        reveal_with_fuel(digits_value, 4);
        assert(d =~= seq![d[0]]);
        assert(p =~= seq!['0', '0', d[0]]);
        assert(p.drop_last() =~= seq!['0', '0']);
        assert(p.drop_last().drop_last() =~= seq!['0']);
        assert(d.drop_last() =~= Seq::<char>::empty());
    } else if n < 100 {
        reveal_with_fuel(decimal, 3);
        reveal_with_fuel(digits_value, 4);
        assert(d =~= seq![d[0], d[1]]);
        assert(p =~= seq!['0', d[0], d[1]]);
        assert(p.drop_last() =~= seq!['0', d[0]]);
        assert(p.drop_last().drop_last() =~= seq!['0']);
        assert(d.drop_last() =~= seq![d[0]]);
        assert(d.drop_last().drop_last() =~= Seq::<char>::empty());
    } else {
        reveal_with_fuel(decimal, 3);
    }
}


/// The picture that was used stands last, and is kept. Of the others the one that was
/// not used for longest is given up, and only where one too many would be kept; those
/// that stay keep their order.
pub proof fn the_oldest_picture_goes(order: Seq<usize>, cap: int, idx: usize)
    requires
        order.no_duplicates(),
        0 < order.len() <= cap,
    ensures
        ({
            let (kept, gone) = touched(order, cap, idx);
            &&& kept.len() > 0 && kept.last() == idx
            &&& gone is Some <==> order.len() == cap && !order.contains(idx)
            &&& gone matches Some(x) ==> x == order[0] && kept == order.drop_first().push(idx)
            &&& gone is None && !order.contains(idx) ==> kept == order.push(idx)
            &&& forall|i: int|
                0 <= i < order.len() && order[i] == idx ==> kept == (#[trigger] order.remove(
                    i,
                )).push(idx)
        }),
{
    if order.contains(idx) {
        let i = choose|i: int| 0 <= i < order.len() && order[i] == idx;
        lemma_without(order, i);
        assert forall|k: int| 0 <= k < order.len() && order[k] == idx implies touched(
            order,
            cap,
            idx,
        ).0 == (#[trigger] order.remove(k)).push(idx) by {
            lemma_without(order, k);
        }
    } else {
        lemma_absent(order, idx);
        assert(order.push(idx).drop_first() =~= order.drop_first().push(idx));
        assert forall|k: int| 0 <= k < order.len() implies order[k] != idx by {
            assert(order.contains(order[k]));
        }
    }
}


} // verus!
