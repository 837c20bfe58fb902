use vstd::prelude::*;

verus! {

/// Where one reserved element stands in a template, as byte offsets into it.
#[derive(Debug)]
pub struct Slot {
    /// First byte of the open tag.
    pub open_start: usize,
    /// First byte after the open tag: where the slot's content begins.
    pub content_start: usize,
    /// First byte of the close tag: where the slot's content ends.
    pub content_end: usize,
    /// First byte after the close tag.
    pub close_end: usize,
    /// The script held by the element's `code` attribute (empty when absent).
    pub code: String,
}

impl Slot {
    /// Both tags are non-empty and the element lies inside a template of `len` bytes.
    pub open spec fn placed(&self, len: nat) -> bool {
        self.open_start < self.content_start <= self.content_end < self.close_end <= len
    }
}

/// `b`, listed after `a`, opens later and lies either after `a` or wholly
/// inside `a`'s content.
pub open spec fn follows(a: Slot, b: Slot) -> bool {
    &&& a.open_start < b.open_start
    &&& (a.close_end <= b.open_start || (a.content_start <= b.open_start && b.close_end
        <= a.content_end))
}

/// The slots are placed, listed in document order, and any two are either
/// disjoint or the later one lies wholly inside the earlier one's content.
pub open spec fn slots_placed(slots: Seq<Slot>, len: nat) -> bool {
    &&& forall|i: int| 0 <= i < slots.len() ==> #[trigger] slots[i].placed(len)
    &&& forall|i: int, j: int| 0 <= i < j < slots.len() ==> #[trigger] follows(slots[i], slots[j])
}

/// The bytes `p..e` of the template, where every outermost slot among those from
/// index `i` on that opens in that region is replaced by its result in `res`.
pub open spec fn resolved(
    t: Seq<u8>,
    slots: Seq<Slot>,
    res: Seq<Seq<u8>>,
    i: int,
    p: int,
    e: int,
) -> Seq<u8>
    decreases slots.len() - i,
{
    if i < 0 || i >= slots.len() || slots[i].open_start >= e {
        t.subrange(p, e)
    } else if slots[i].open_start < p {
        resolved(t, slots, res, i + 1, p, e)
    } else {
        t.subrange(p, slots[i].open_start as int) + res[i] + resolved(
            t,
            slots,
            res,
            i + 1,
            slots[i].close_end as int,
            e,
        )
    }
}

/// What slot `k`'s script is handed: its content, with the slots nested in it
/// already replaced by their results.
pub open spec fn slot_input(t: Seq<u8>, slots: Seq<Slot>, res: Seq<Seq<u8>>, k: int) -> Seq<u8> {
    resolved(t, slots, res, k + 1, slots[k].content_start as int, slots[k].content_end as int)
}

/// The whole template, with each outermost slot replaced by its result.
pub open spec fn spliced(t: Seq<u8>, slots: Seq<Slot>, res: Seq<Seq<u8>>) -> Seq<u8> {
    resolved(t, slots, res, 0, 0, t.len() as int)
}

/// Only the results of slots that open inside `p..e` matter to the region.
pub proof fn lemma_resolved_frame(
    t: Seq<u8>,
    slots: Seq<Slot>,
    r1: Seq<Seq<u8>>,
    r2: Seq<Seq<u8>>,
    i: int,
    p: int,
    e: int,
)
    requires
        forall|j: int|
            i <= j < slots.len() && p <= #[trigger] slots[j].open_start < e ==> r1[j] == r2[j],
        forall|j: int| i <= j < slots.len() ==> #[trigger] slots[j].open_start <= slots[j].close_end,
    ensures
        resolved(t, slots, r1, i, p, e) == resolved(t, slots, r2, i, p, e),
    decreases slots.len() - i,
{
    if i < 0 || i >= slots.len() || slots[i].open_start >= e {
    } else if slots[i].open_start < p {
        lemma_resolved_frame(t, slots, r1, r2, i + 1, p, e);
    } else {
        assert(r1[i] == r2[i]);
        lemma_resolved_frame(t, slots, r1, r2, i + 1, slots[i].close_end as int, e);
    }
}

/// Every slot from index `i` on that opens inside `p..e` also closes inside it.
pub open spec fn region_closed(slots: Seq<Slot>, i: int, p: int, e: int) -> bool {
    forall|j: int|
        i <= j < slots.len() && p <= #[trigger] slots[j].open_start < e ==> slots[j].close_end
            <= e
}

/// Every slot nested in slot `k` closes inside `k`'s content.
pub proof fn lemma_content_closed(slots: Seq<Slot>, len: nat, k: int)
    requires
        slots_placed(slots, len),
        0 <= k < slots.len(),
    ensures
        region_closed(slots, k + 1, slots[k].content_start as int, slots[k].content_end as int),
{
    assert forall|j: int|
        k + 1 <= j < slots.len() && slots[k].content_start <= #[trigger] slots[j].open_start
            < slots[k].content_end implies slots[j].close_end <= slots[k].content_end by {
        assert(follows(slots[k], slots[j]));
        assert(slots[k].placed(len));
    }
}

/// Whether `slots` is a valid layout of slots in a template of `len` bytes.
pub fn slots_fit(len: usize, slots: &Vec<Slot>) -> (r: bool)
    ensures
        r == slots_placed(slots@, len as nat),
{
    let n = slots.len();
    let mut i: usize = 0;
    while i < n
        invariant
            n == slots@.len(),
            i <= n,
            forall|a: int| 0 <= a < i ==> #[trigger] slots@[a].placed(len as nat),
            forall|a: int, b: int| 0 <= a < i && a < b < n ==> #[trigger] follows(slots@[a], slots@[b]),
        decreases n - i,
    {
        let s = &slots[i];
        if !(s.open_start < s.content_start && s.content_start <= s.content_end && s.content_end
            < s.close_end && s.close_end <= len) {
            assert(!slots@[i as int].placed(len as nat));
            return false;
        }
        let mut j: usize = i + 1;
        while j < n
            invariant
                n == slots@.len(),
                i < n,
                i < j <= n,
                *s == slots@[i as int],
                forall|b: int| i < b < j ==> #[trigger] follows(slots@[i as int], slots@[b]),
            decreases n - j,
        {
            let t = &slots[j];
            if !(s.open_start < t.open_start && (s.close_end <= t.open_start || (s.content_start
                <= t.open_start && t.close_end <= s.content_end))) {
                assert(!follows(slots@[i as int], slots@[j as int]));
                return false;
            }
            j = j + 1;
        }
        i = i + 1;
    }
    true
}

/// Distinct slots of a valid layout close at distinct offsets.
pub proof fn lemma_distinct_closes(slots: Seq<Slot>, len: nat, a: int, b: int)
    requires
        slots_placed(slots, len),
        0 <= a < slots.len(),
        0 <= b < slots.len(),
        a != b,
    ensures
        slots[a].close_end != slots[b].close_end,
{
    assert(slots[a].placed(len));
    assert(slots[b].placed(len));
    if a < b {
        assert(follows(slots[a], slots[b]));
    } else {
        assert(follows(slots[b], slots[a]));
    }
}

/// The least close offset that a slot not yet ordered can have.
pub open spec fn floor_of(last: Option<usize>) -> int {
    match last {
        None => 0,
        Some(l) => l + 1,
    }
}

/// Slot indices in the order in which their close tags come in the template:
/// every slot once, each after every slot nested in it, siblings in document
/// order.
pub fn close_order(slots: &Vec<Slot>, len: usize) -> (r: Vec<usize>)
    requires
        slots_placed(slots@, len as nat),
    ensures
        forall|x: int| 0 <= x < r@.len() ==> #[trigger] r@[x] < slots@.len(),
        forall|x: int, y: int|
            0 <= x < y < r@.len() ==> slots@[#[trigger] r@[x] as int].close_end < slots@[#[trigger] r@[y] as int].close_end,
        forall|j: int| 0 <= j < slots@.len() ==> #[trigger] r@.contains(j as usize),
{
    let n = slots.len();
    let mut order: Vec<usize> = Vec::new();
    let mut last: Option<usize> = None;
    loop
        invariant
            n == slots@.len(),
            slots_placed(slots@, len as nat),
            floor_of(last) <= len + 1,
            forall|x: int| 0 <= x < order@.len() ==> #[trigger] order@[x] < n,
            forall|x: int, y: int|
                0 <= x < y < order@.len() ==> slots@[#[trigger] order@[x] as int].close_end < slots@[#[trigger] order@[y] as int].close_end,
            forall|x: int| 0 <= x < order@.len() ==> slots@[#[trigger] order@[x] as int].close_end < floor_of(last),
            forall|j: int| 0 <= j < n && slots@[j].close_end < floor_of(last) ==> #[trigger] order@.contains(j as usize),
        decreases len + 1 - floor_of(last),
    {
        let mut found: Option<usize> = None;
        let mut j: usize = 0;
        while j < n
            invariant
                n == slots@.len(),
                j <= n,
                found matches Some(m) ==> m < n && slots@[m as int].close_end >= floor_of(last) && forall|q: int|
                    0 <= q < j && slots@[q].close_end >= floor_of(last) ==> slots@[m as int].close_end
                        <= #[trigger] slots@[q].close_end,
                found is None ==> forall|q: int| 0 <= q < j ==> #[trigger] slots@[q].close_end < floor_of(last),
            decreases n - j,
        {
            let c = slots[j].close_end;
            let above = match last {
                None => true,
                Some(l) => c > l,
            };
            if above {
                match found {
                    Some(m) => {
                        if c < slots[m].close_end {
                            found = Some(j);
                        }
                    },
                    None => {
                        found = Some(j);
                    },
                }
            }
            j = j + 1;
        }
        match found {
            None => {
                assert forall|q: int| 0 <= q < n implies #[trigger] order@.contains(q as usize) by {
                    assert(slots@[q].close_end < floor_of(last));
                }
                return order;
            },
            Some(m) => {
                assert(slots@[m as int].placed(len as nat));
                let ghost prev = order@;
                let ghost old_last = last;
                order.push(m);
                assert forall|q: int| 0 <= q < n && slots@[q].close_end < slots@[m as int].close_end + 1 implies #[trigger] order@.contains(q as usize) by {
                    if slots@[q].close_end < floor_of(old_last) {
                        assert(prev.contains(q as usize));
                        let x = choose|x: int| 0 <= x < prev.len() && prev[x] == q as usize;
                        assert(order@[x] == q as usize);
                    } else if q != m as int {
                        lemma_distinct_closes(slots@, len as nat, q, m as int);
                    } else {
                        assert(order@[prev.len() as int] == m);
                    }
                }
                last = Some(slots[m].close_end);
            },
        }
    }
}

/// Appends the bytes `a..b` of `src` to `out`.
pub fn append_range(out: &mut Vec<u8>, src: &[u8], a: usize, b: usize)
    requires
        a <= b <= src@.len(),
    ensures
        final(out)@ == old(out)@ + src@.subrange(a as int, b as int),
{
    let mut k: usize = a;
    while k < b
        invariant
            a <= k <= b <= src@.len(),
            out@ == old(out)@ + src@.subrange(a as int, k as int),
        decreases b - k,
    {
        out.push(src[k]);
        k = k + 1;
        assert(src@.subrange(a as int, k as int) =~= src@.subrange(a as int, k - 1) + seq![
            src@[k - 1],
        ]);
    }
}

/// The region `p..e` of the template with the outermost slots from index `start`
/// on replaced by their results.
pub fn resolve_region(
    t: &[u8],
    slots: &Vec<Slot>,
    res: &Vec<Vec<u8>>,
    start: usize,
    p: usize,
    e: usize,
) -> (out: Vec<u8>)
    requires
        slots_placed(slots@, t@.len()),
        res@.len() == slots@.len(),
        start <= slots@.len(),
        p <= e <= t@.len(),
        region_closed(slots@, start as int, p as int, e as int),
    ensures
        out@ == resolved(t@, slots@, res.deep_view(), start as int, p as int, e as int),
{
    let mut out: Vec<u8> = Vec::new();
    let mut i: usize = start;
    let mut q: usize = p;
    let ghost whole = resolved(t@, slots@, res.deep_view(), start as int, p as int, e as int);
    while i < slots.len() && slots[i].open_start < e
        invariant
            slots_placed(slots@, t@.len()),
            res@.len() == slots@.len(),
            start <= i <= slots@.len(),
            p <= q <= e <= t@.len(),
            region_closed(slots@, i as int, q as int, e as int),
            out@ + resolved(t@, slots@, res.deep_view(), i as int, q as int, e as int) == whole,
        decreases slots@.len() - i,
    {
        let slot = &slots[i];
        if slot.open_start < q {
            i = i + 1;
        } else {
            assert(slots@[i as int].placed(t@.len()));
            let ghost before = out@;
            append_range(&mut out, t, q, slot.open_start);
            append_range(&mut out, res[i].as_slice(), 0, res[i].len());
            assert(res[i as int]@.subrange(0, res[i as int]@.len() as int) =~= res[i as int]@);
            assert(res.deep_view()[i as int] == res[i as int]@);
            let ghost next_q = slot.close_end;
            assert(out@ + resolved(t@, slots@, res.deep_view(), i + 1, next_q as int, e as int)
                =~= before + resolved(t@, slots@, res.deep_view(), i as int, q as int, e as int));
            q = slot.close_end;
            i = i + 1;
        }
    }
    append_range(&mut out, t, q, e);
    out
}

} // verus!
