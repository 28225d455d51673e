//! The pages that mapping a range creates, as a set, and why no other choice
//! of pages covers the range with fewer.
use vstd::prelude::*;

use crate::mmu::addr::{AddressRange, PhysicalAddr, VirtualAddr};
use crate::mmu::range_check_error;
use crate::mmu::walk::{
    lemma_coarser_page, lemma_largest_pages, lemma_multiple_of_divisor, lemma_page_base, lemma_page_in_range,
    lemma_page_of, lemma_pages_fit, level_size, page_fits, range_page_level,
};

verus! {

/// The first address of the page of `level` that holds `va`.
pub open spec fn page_base(va: int, level: int) -> int {
    (va / level_size(level)) * level_size(level)
}

/// The pages that mapping the range creates, each as its first address and
/// its level: the page of `range_page_level` that holds each address of the
/// range.
pub open spec fn range_pages(vr: AddressRange<VirtualAddr>, pr: AddressRange<PhysicalAddr>) -> Set<
    (int, int),
> {
    Set::new(
        |p: (int, int)|
            exists|va: usize|
                vr.start@ <= va < vr.end@ && p == (
                    page_base(va as int, range_page_level(vr, pr, va)),
                    range_page_level(vr, pr, va),
                ),
    )
}

/// Each of `pages`, given as its first address and its level, could map part
/// of the range, and together they hold every address of the range.
pub open spec fn fitting_cover(
    vr: AddressRange<VirtualAddr>,
    pr: AddressRange<PhysicalAddr>,
    pages: Set<(int, int)>,
) -> bool {
    &&& forall|p: (int, int)|
        #[trigger] pages.contains(p) ==> {
            &&& 0 <= p.1 <= 2
            &&& p.0 >= 0
            &&& p.0 % level_size(p.1) == 0
            &&& page_fits(vr, pr, p.0, p.1)
        }
    &&& forall|va: int| vr.start@ <= va < vr.end@ ==> #[trigger] holds_address(pages, va)
}

/// One of `pages`, given as its first address and its level, holds `va`.
pub open spec fn holds_address(pages: Set<(int, int)>, va: int) -> bool {
    exists|p: (int, int)| #[trigger] pages.contains(p) && p.0 <= va < p.0 + level_size(p.1)
}

/// All addresses of one page of the range's tiling get the level of that page.
proof fn lemma_level_on_page(vr: AddressRange<VirtualAddr>, pr: AddressRange<PhysicalAddr>, va: usize, b: usize)
    requires
        range_check_error(vr, pr) is None,
        pr.fits_usize(),
        vr.start@ <= va < vr.end@,
        vr.start@ <= b < vr.end@,
        (b as int) / level_size(range_page_level(vr, pr, va)) == (va as int) / level_size(
            range_page_level(vr, pr, va),
        ),
    ensures
        range_page_level(vr, pr, b) == range_page_level(vr, pr, va),
{
    let m = range_page_level(vr, pr, va);
    let m2 = range_page_level(vr, pr, b);
    lemma_pages_fit(vr, pr, va);
    lemma_pages_fit(vr, pr, b);
    assert(0 <= m <= 2 && 0 <= m2 <= 2);
    // The page of `va` at `m` is the page of `b` at `m`.
    assert(page_base(b as int, m) == page_base(va as int, m));
    assert(page_fits(vr, pr, b as int, m));
    lemma_largest_pages(vr, pr, b, m);
    // The page of `b` at `m2`, a level at least `m`, holds `va` too.
    lemma_coarser_page(b as int, va as int, m, m2);
    assert(page_base(b as int, m2) == page_base(va as int, m2));
    assert(page_fits(vr, pr, va as int, m2));
    lemma_largest_pages(vr, pr, va, m2);
}

/// The pages that mapping a range creates cover it, each could map part of
/// it, and no finite set of pages that each could map part of the range and
/// together cover it has fewer: mapping a range uses the fewest pages
/// possible.
pub proof fn lemma_fewest_pages(
    vr: AddressRange<VirtualAddr>,
    pr: AddressRange<PhysicalAddr>,
    pages: Set<(int, int)>,
)
    requires
        range_check_error(vr, pr) is None,
        pr.fits_usize(),
        pages.finite(),
        fitting_cover(vr, pr, pages),
    ensures
        fitting_cover(vr, pr, range_pages(vr, pr)),
        range_pages(vr, pr).finite(),
        range_pages(vr, pr).len() <= pages.len(),
{
    lemma_tiling_covers(vr, pr);
    let f = |p: (int, int)|
        (page_base(p.0, range_page_level(vr, pr, p.0 as usize)), range_page_level(vr, pr, p.0 as usize));
    assert forall|p: (int, int)| pages.contains(p) implies #[trigger] range_pages(vr, pr).contains(f(p)) by {
        let size = level_size(p.1);
        lemma_page_base(p.0, 0, size);
        vstd::arithmetic::div_mod::lemma_fundamental_div_mod(p.0, size);
        vstd::arithmetic::mul::lemma_mul_is_commutative(p.0 / size, size);
        assert(page_base(p.0, p.1) == p.0);
        let va = p.0 as usize;
        assert(vr.start@ <= va < vr.end@);
    }
    assert forall|q: (int, int)| range_pages(vr, pr).contains(q) implies #[trigger] pages.map(f).contains(q) by {
        let va = choose|va: usize|
            vr.start@ <= va < vr.end@ && q == (
                page_base(va as int, range_page_level(vr, pr, va)),
                range_page_level(vr, pr, va),
            );
        let m = range_page_level(vr, pr, va);
        let sm = level_size(m);
        lemma_page_in_range(vr, pr, va);
        lemma_pages_fit(vr, pr, va);
        let b = page_base(va as int, m);
        lemma_page_base(va as int, 0, sm);
        assert(vr.start@ <= b < vr.end@);
        let bu = b as usize;
        lemma_page_of(va as int, b, sm);
        lemma_page_of(b, b, sm);
        lemma_level_on_page(vr, pr, va, bu);
        assert(holds_address(pages, b));
        let p = choose|p: (int, int)| #[trigger] pages.contains(p) && p.0 <= b < p.0 + level_size(p.1);
        let sl = level_size(p.1);
        // The page `p` holds `b`, so it fits where `b` is, and is no larger
        // than the page of `b`.
        lemma_page_of(b, p.0, sl);
        lemma_page_base(p.0, 0, sl);
        vstd::arithmetic::div_mod::lemma_fundamental_div_mod(p.0, sl);
        assert(page_base(b, p.1) == page_base(p.0, p.1));
        assert(page_fits(vr, pr, b, p.1));
        lemma_largest_pages(vr, pr, bu, p.1);
        // Both start at multiples of the smaller size, one within the other.
        assert(sm % sl == 0) by {
            assert(0 <= p.1 <= m <= 2);
            if p.1 == 0 {
                if m == 1 {
                    assert(0x20_0000int % 4096 == 0);
                } else if m == 2 {
                    assert(0x4000_0000int % 4096 == 0);
                }
            } else if p.1 == 1 && m == 2 {
                assert(0x4000_0000int % 0x20_0000 == 0);
            }
        }
        lemma_multiple_of_divisor(b, sm, sl);
        lemma_page_of(b, b, sl);
        assert(p.0 == b) by {
            lemma_page_of(p.0, b, sl);
        }
        lemma_page_base(b, 0, sm);
        assert(f(p) == q);
    }
    assert(pages.map(f) =~= range_pages(vr, pr));
    vstd::set_lib::lemma_map_size_bound(pages, range_pages(vr, pr), f);
}

/// The pages that mapping a range creates cover it, and each could map part
/// of it.
proof fn lemma_tiling_covers(vr: AddressRange<VirtualAddr>, pr: AddressRange<PhysicalAddr>)
    requires
        range_check_error(vr, pr) is None,
        pr.fits_usize(),
    ensures
        fitting_cover(vr, pr, range_pages(vr, pr)),
{
    assert forall|p: (int, int)| #[trigger] range_pages(vr, pr).contains(p) implies {
        &&& 0 <= p.1 <= 2
        &&& p.0 >= 0
        &&& p.0 % level_size(p.1) == 0
        &&& page_fits(vr, pr, p.0, p.1)
    } by {
        let va = choose|va: usize|
            vr.start@ <= va < vr.end@ && p == (
                page_base(va as int, range_page_level(vr, pr, va)),
                range_page_level(vr, pr, va),
            );
        let m = range_page_level(vr, pr, va);
        lemma_pages_fit(vr, pr, va);
        lemma_page_base(va as int, 0, level_size(m));
        lemma_page_of(va as int, p.0, level_size(m));
        assert(page_base(p.0, m) == page_base(va as int, m)) by {
            lemma_page_of(p.0, p.0, level_size(m));
        }
    }
    assert forall|v: int| vr.start@ <= v < vr.end@ implies #[trigger] holds_address(range_pages(vr, pr), v) by {
        let va = v as usize;
        let m = range_page_level(vr, pr, va);
        lemma_pages_fit(vr, pr, va);
        lemma_page_base(va as int, 0, level_size(m));
        let p = (page_base(va as int, m), m);
        assert(range_pages(vr, pr).contains(p));
    }
}

} // verus!
