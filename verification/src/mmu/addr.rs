//! Physical and virtual addresses, page sizes and address ranges.
use vstd::prelude::*;

verus! {

/// The three Sv39 page sizes.
#[derive(Clone, Copy, PartialEq, Eq, Debug)]
pub enum PageType {
    /// 4 KiB page, mapped by a level-0 entry.
    Small,
    /// 2 MiB megapage, mapped by a level-1 entry.
    Large,
    /// 1 GiB gigapage, mapped by a level-2 entry.
    Huge,
}

pub const SMALL_PAGE_SIZE: usize = 4096;

pub const LARGE_PAGE_SIZE: usize = 0x20_0000;

pub const HUGE_PAGE_SIZE: usize = 0x4000_0000;

impl PageType {
    /// Number of bytes in a page of this type.
    pub open spec fn bytes(self) -> usize {
        match self {
            PageType::Small => SMALL_PAGE_SIZE,
            PageType::Large => LARGE_PAGE_SIZE,
            PageType::Huge => HUGE_PAGE_SIZE,
        }
    }

    pub fn size(self) -> (r: usize)
        ensures
            r == self.bytes(),
    {
        match self {
            PageType::Small => 4096,
            PageType::Large => 2 * 1024 * 1024,
            PageType::Huge => 1024 * 1024 * 1024,
        }
    }

    pub fn alignment(self) -> (r: Alignment)
        ensures
            r@ == self.bytes(),
    {
        let size = self.size();
        proof {
            reveal_with_fuel(is_power_of_two, 32);
        }
        Alignment(size)
    }

    /// The mask that clears the offset bits within a page of this type.
    pub fn mask(self) -> (r: usize)
        ensures
            r == !((self.bytes() - 1) as usize),
    {
        !(self.size() - 1)
    }
}

/// `n` is 2^k for some k >= 0.
pub open spec fn is_power_of_two(n: nat) -> bool
    decreases n,
{
    if n == 0 {
        false
    } else if n == 1 {
        true
    } else {
        n % 2 == 0 && is_power_of_two(n / 2)
    }
}

/// A power-of-two alignment in bytes.
#[derive(Clone, Copy, PartialEq, Eq, Debug)]
pub struct Alignment(usize);

impl Alignment {
    #[verifier::type_invariant]
    closed spec fn inv(self) -> bool {
        is_power_of_two(self.0 as nat)
    }

    pub closed spec fn view(self) -> usize {
        self.0
    }

    /// The alignment of `n` bytes, if `n` is a power of two.
    pub fn new(n: usize) -> (r: Option<Alignment>)
        ensures
            r is Some <==> is_power_of_two(n as nat),
            r matches Some(a) ==> a@ == n,
    {
        let mut x = n;
        while x > 1 && x % 2 == 0
            invariant
                x <= n,
                is_power_of_two(n as nat) == is_power_of_two(x as nat),
            decreases x,
        {
            x = x / 2;
        }
        if x == 1 {
            Some(Alignment(n))
        } else {
            None
        }
    }

    pub fn as_usize(self) -> (r: usize)
        ensures
            r == self@,
            is_power_of_two(r as nat),
    {
        proof {
            use_type_invariant(&self);
        }
        self.0
    }

    /// The larger of two alignments.
    pub fn max(self, other: Alignment) -> (r: Alignment)
        ensures
            r@ == (if self@ >= other@ { self@ } else { other@ }),
    {
        if self.0 >= other.0 {
            self
        } else {
            other
        }
    }
}

/// Addresses that convert to and from `usize`, which ranges are generic over.
pub trait Address: Copy + Sized {
    /// The numeric value of the address.
    spec fn addr(&self) -> nat;

    /// Converts to `usize`; the value must fit, as it always does on RV64.
    fn to_usize(self) -> (r: usize)
        requires
            self.addr() <= usize::MAX,
        ensures
            r == self.addr(),
    ;

    fn from_usize(value: usize) -> (r: Self)
        ensures
            r.addr() == value,
    ;
}

/// A 64-bit physical address.
#[derive(Clone, Copy, PartialEq, Eq, PartialOrd, Ord, Debug, Structural)]
pub struct PhysicalAddr(u64);

impl PhysicalAddr {
    pub closed spec fn view(self) -> u64 {
        self.0
    }

    /// The address with value `addr`.
    pub closed spec fn at(addr: u64) -> PhysicalAddr {
        PhysicalAddr(addr)
    }

    pub broadcast proof fn lemma_at_view(addr: u64)
        ensures
            #[trigger] PhysicalAddr::at(addr)@ == addr,
    {
    }

    pub proof fn lemma_view_injective(a: PhysicalAddr, b: PhysicalAddr)
        ensures
            a@ == b@ <==> a == b,
    {
    }

    pub fn new(addr: u64) -> (r: Self)
        ensures
            r@ == addr,
    {
        PhysicalAddr(addr)
    }

    pub fn get(self) -> (r: u64)
        ensures
            r == self@,
    {
        self.0
    }

    /// Physical page number: the address without its 12 offset bits.
    pub fn ppn(self) -> (r: u64)
        ensures
            r == self@ / 4096,
    {
        let a = self.0;
        assert(a >> 12u64 == a / 4096) by (bit_vector);
        a >> 12
    }

    /// The address of the first byte of page `ppn`; bits shifted past bit 63 are lost.
    pub fn from_ppn(ppn: u64) -> (r: Self)
        ensures
            r@ == (ppn * 4096) % 0x1_0000_0000_0000_0000,
            ppn < 0x10_0000_0000_0000 ==> r@ == ppn * 4096,
    {
        assert((ppn << 12u64) == (ppn * 4096) % 0x1_0000_0000_0000_0000) by (bit_vector);
        PhysicalAddr(ppn << 12)
    }

    pub fn is_aligned(self, page_type: PageType) -> (r: bool)
        ensures
            r == (self@ % (page_type.bytes() as u64) == 0),
    {
        self.0 % (page_type.size() as u64) == 0
    }

    pub fn add(self, by: usize) -> (r: Self)
        requires
            self@ + by <= u64::MAX,
        ensures
            r@ == self@ + by,
    {
        PhysicalAddr(self.0 + by as u64)
    }
}

impl From<usize> for PhysicalAddr {
    fn from(value: usize) -> (r: Self) {
        PhysicalAddr::new(value as u64)
    }
}

impl vstd::std_specs::convert::FromSpecImpl<usize> for PhysicalAddr {
    open spec fn obeys_from_spec() -> bool {
        true
    }

    open spec fn from_spec(v: usize) -> PhysicalAddr {
        PhysicalAddr::at(v as u64)
    }
}

impl From<PhysicalAddr> for usize {
    /// The address as a `usize`; on targets with a narrower `usize` the high bits are dropped.
    fn from(value: PhysicalAddr) -> (r: usize) {
        value.get() as usize
    }
}

impl vstd::std_specs::convert::FromSpecImpl<PhysicalAddr> for usize {
    open spec fn obeys_from_spec() -> bool {
        true
    }

    open spec fn from_spec(v: PhysicalAddr) -> usize {
        v@ as usize
    }
}

impl Address for PhysicalAddr {
    open spec fn addr(&self) -> nat {
        self@ as nat
    }

    fn to_usize(self) -> (r: usize) {
        self.0 as usize
    }

    fn from_usize(value: usize) -> (r: Self) {
        PhysicalAddr(value as u64)
    }
}

/// A virtual address.
#[derive(Clone, Copy, PartialEq, Eq, PartialOrd, Ord, Debug, Structural)]
pub struct VirtualAddr(usize);

impl VirtualAddr {
    pub closed spec fn view(self) -> usize {
        self.0
    }

    /// The address with value `addr`.
    pub closed spec fn at(addr: usize) -> VirtualAddr {
        VirtualAddr(addr)
    }

    pub broadcast proof fn lemma_at_view(addr: usize)
        ensures
            #[trigger] VirtualAddr::at(addr)@ == addr,
    {
    }

    pub proof fn lemma_view_injective(a: VirtualAddr, b: VirtualAddr)
        ensures
            a@ == b@ <==> a == b,
    {
    }

    pub fn new(addr: usize) -> (r: Self)
        ensures
            r@ == addr,
    {
        VirtualAddr(addr)
    }

    pub fn get(self) -> (r: usize)
        ensures
            r == self@,
    {
        self.0
    }

    /// Index into the level-0 table (bits 12..21).
    pub fn vpn0(self) -> (r: usize)
        ensures
            r == vpn(self@, 0),
            r < 512,
    {
        let a = self.0;
        assert((a >> 12usize) & 0x1ffusize == (a / 4096) % 512) by (bit_vector);
        (a >> 12) & 0x1ff
    }

    /// Index into the level-1 table (bits 21..30).
    pub fn vpn1(self) -> (r: usize)
        ensures
            r == vpn(self@, 1),
            r < 512,
    {
        let a = self.0;
        assert((a >> 21usize) & 0x1ffusize == (a / 0x20_0000) % 512) by (bit_vector);
        (a >> 21) & 0x1ff
    }

    /// Index into the root table (bits 30..39).
    pub fn vpn2(self) -> (r: usize)
        ensures
            r == vpn(self@, 2),
            r < 512,
    {
        let a = self.0;
        assert((a >> 30usize) & 0x1ffusize == (a / 0x4000_0000) % 512) by (bit_vector);
        (a >> 30) & 0x1ff
    }

    pub fn is_aligned(self, page_type: PageType) -> (r: bool)
        ensures
            r == (self@ % page_type.bytes() == 0),
    {
        self.0 % page_type.size() == 0
    }

    pub fn add(self, offset: usize) -> (r: Self)
        requires
            self@ + offset <= usize::MAX,
        ensures
            r@ == self@ + offset,
    {
        VirtualAddr(self.0 + offset)
    }
}

/// The 9-bit table index that a virtual address selects at `level` (0, 1 or 2).
pub open spec fn vpn(va: usize, level: int) -> usize {
    if level == 0 {
        ((va / 4096) % 512) as usize
    } else if level == 1 {
        ((va / 0x20_0000) % 512) as usize
    } else {
        ((va / 0x4000_0000) % 512) as usize
    }
}

impl From<usize> for VirtualAddr {
    fn from(value: usize) -> (r: Self) {
        VirtualAddr::new(value)
    }
}

impl vstd::std_specs::convert::FromSpecImpl<usize> for VirtualAddr {
    open spec fn obeys_from_spec() -> bool {
        true
    }

    open spec fn from_spec(v: usize) -> VirtualAddr {
        VirtualAddr::at(v)
    }
}

impl From<VirtualAddr> for usize {
    fn from(value: VirtualAddr) -> (r: usize) {
        value.get()
    }
}

impl vstd::std_specs::convert::FromSpecImpl<VirtualAddr> for usize {
    open spec fn obeys_from_spec() -> bool {
        true
    }

    open spec fn from_spec(v: VirtualAddr) -> usize {
        v@
    }
}

impl Address for VirtualAddr {
    open spec fn addr(&self) -> nat {
        self@ as nat
    }

    fn to_usize(self) -> (r: usize) {
        self.0
    }

    fn from_usize(value: usize) -> (r: Self) {
        VirtualAddr(value)
    }
}

/// The addresses `[start, end)`.
#[derive(Clone, Copy, Debug, PartialEq, Eq)]
pub struct AddressRange<T> {
    pub start: T,
    pub end: T,
}

impl<T> AddressRange<T> {
    /// Creates a new address range with addresses `[start, end)`.
    ///
    /// `start` is the first address in the range.
    /// `end` is the first address outside the range.
    pub fn new(start: T, end: T) -> (r: Self)
        ensures
            r.start == start,
            r.end == end,
    {
        AddressRange { start, end }
    }

    /// Applies `f` to both bounds.
    pub fn map<U, F: Fn(T) -> U>(self, f: F) -> (r: AddressRange<U>)
        requires
            f.requires((self.start,)),
            f.requires((self.end,)),
        ensures
            f.ensures((self.start,), r.start),
            f.ensures((self.end,), r.end),
    {
        let start = f(self.start);
        let end = f(self.end);
        AddressRange { start, end }
    }
}

impl<T: Address> AddressRange<T> {
    /// Both bounds fit in a `usize`.
    pub open spec fn fits_usize(self) -> bool {
        self.start.addr() <= usize::MAX && self.end.addr() <= usize::MAX
    }

    /// Number of bytes in the range; zero when `end` does not exceed `start`.
    pub open spec fn len(self) -> nat {
        if self.end.addr() >= self.start.addr() {
            (self.end.addr() - self.start.addr()) as nat
        } else {
            0
        }
    }

    pub fn size(&self) -> (r: usize)
        requires
            self.fits_usize(),
        ensures
            r == self.len(),
    {
        let end = self.end.to_usize();
        let start = self.start.to_usize();
        if end >= start {
            end - start
        } else {
            0
        }
    }

    /// The same range with its end rounded up to a multiple of the page size.
    pub fn with_aligned_end(self, page_type: PageType) -> (r: Self)
        requires
            self.end.addr() <= usize::MAX,
            round_up(self.end.addr(), page_type.bytes() as nat) <= usize::MAX,
        ensures
            r.start == self.start,
            r.end.addr() == round_up(self.end.addr(), page_type.bytes() as nat),
    {
        let end = self.end.to_usize();
        let size = page_type.size();
        let rem = end % size;
        let aligned = if rem == 0 {
            end
        } else {
            end + (size - rem)
        };
        AddressRange { start: self.start, end: T::from_usize(aligned) }
    }

    /// The page of type `page_type` that begins at `start`.
    pub fn page(start: T, page_type: PageType) -> (r: Self)
        requires
            start.addr() + page_type.bytes() <= usize::MAX,
        ensures
            r.start == start,
            r.end.addr() == start.addr() + page_type.bytes(),
    {
        let s = start.to_usize();
        AddressRange { start, end: T::from_usize(s + page_type.size()) }
    }
}

impl From<core::ops::Range<usize>> for AddressRange<VirtualAddr> {
    fn from(range: core::ops::Range<usize>) -> (r: Self) {
        AddressRange::new(VirtualAddr::new(range.start), VirtualAddr::new(range.end))
    }
}

impl vstd::std_specs::convert::FromSpecImpl<core::ops::Range<usize>> for AddressRange<VirtualAddr> {
    open spec fn obeys_from_spec() -> bool {
        true
    }

    open spec fn from_spec(v: core::ops::Range<usize>) -> AddressRange<VirtualAddr> {
        AddressRange { start: VirtualAddr::at(v.start), end: VirtualAddr::at(v.end) }
    }
}

impl From<core::ops::Range<VirtualAddr>> for AddressRange<VirtualAddr> {
    fn from(range: core::ops::Range<VirtualAddr>) -> (r: Self) {
        AddressRange::new(range.start, range.end)
    }
}

impl vstd::std_specs::convert::FromSpecImpl<core::ops::Range<VirtualAddr>> for AddressRange<VirtualAddr> {
    open spec fn obeys_from_spec() -> bool {
        true
    }

    open spec fn from_spec(v: core::ops::Range<VirtualAddr>) -> AddressRange<VirtualAddr> {
        AddressRange { start: v.start, end: v.end }
    }
}

impl From<core::ops::Range<usize>> for AddressRange<PhysicalAddr> {
    fn from(range: core::ops::Range<usize>) -> (r: Self) {
        AddressRange::new(PhysicalAddr::new(range.start as u64), PhysicalAddr::new(range.end as u64))
    }
}

impl vstd::std_specs::convert::FromSpecImpl<core::ops::Range<usize>> for AddressRange<PhysicalAddr> {
    open spec fn obeys_from_spec() -> bool {
        true
    }

    open spec fn from_spec(v: core::ops::Range<usize>) -> AddressRange<PhysicalAddr> {
        AddressRange { start: PhysicalAddr::at(v.start as u64), end: PhysicalAddr::at(v.end as u64) }
    }
}

impl From<core::ops::Range<PhysicalAddr>> for AddressRange<PhysicalAddr> {
    fn from(range: core::ops::Range<PhysicalAddr>) -> (r: Self) {
        AddressRange::new(range.start, range.end)
    }
}

impl vstd::std_specs::convert::FromSpecImpl<core::ops::Range<PhysicalAddr>> for AddressRange<PhysicalAddr> {
    open spec fn obeys_from_spec() -> bool {
        true
    }

    open spec fn from_spec(v: core::ops::Range<PhysicalAddr>) -> AddressRange<PhysicalAddr> {
        AddressRange { start: v.start, end: v.end }
    }
}

/// The least multiple of `m` that is at least `n`.
pub open spec fn round_up(n: nat, m: nat) -> nat
    recommends
        m > 0,
{
    if n % m == 0 {
        n
    } else {
        (n + (m - n % m)) as nat
    }
}

/// Rounding up gives the least multiple of `m` that is at least `n`.
pub proof fn lemma_round_up(n: nat, m: nat)
    requires
        m > 0,
    ensures
        n <= round_up(n, m) < n + m,
        round_up(n, m) % m == 0,
        n % m == 0 ==> round_up(n, m) == n,
{
    vstd::arithmetic::div_mod::lemma_fundamental_div_mod(n as int, m as int);
    vstd::arithmetic::div_mod::lemma_mod_bound(n as int, m as int);
    if n % m != 0 {
        let q = n as int / m as int;
        assert(round_up(n, m) == m * (q + 1)) by (nonlinear_arith)
            requires
                n == m * q + n % m,
                round_up(n, m) == n + (m - n % m),
        ;
        vstd::arithmetic::mul::lemma_mul_is_commutative(m as int, q + 1);
        vstd::arithmetic::div_mod::lemma_mod_multiples_basic(q + 1, m as int);
    }
}

/// The page number of a page-aligned physical address gives the address back.
pub proof fn lemma_ppn_round_trip(addr: PhysicalAddr)
    requires
        addr@ % 4096 == 0,
    ensures
        ((addr@ / 4096) * 4096) % 0x1_0000_0000_0000_0000 == addr@,
        addr@ / 4096 < 0x10_0000_0000_0000,
{
}

/// An address of the 39-bit Sv39 space is its three table indices and its
/// page offset.
pub proof fn lemma_vpn_decomposition(va: usize)
    requires
        va < 0x80_0000_0000,
    ensures
        va == vpn(va, 2) * 0x4000_0000 + vpn(va, 1) * 0x20_0000 + vpn(va, 0) * 4096 + va % 4096,
{
    let x = va as u64;
    assert(x < 0x80_0000_0000u64 ==> x == ((x / 0x4000_0000) % 512) * 0x4000_0000 + ((x / 0x20_0000)
        % 512) * 0x20_0000 + ((x / 4096) % 512) * 4096 + x % 4096) by (bit_vector);
}

/// Each page type's alignment is its size, a power of two, and its mask
/// clears exactly the offset bits.
pub proof fn lemma_page_type_sizes(t: PageType)
    ensures
        is_power_of_two(t.bytes() as nat),
        t.bytes() % 4096 == 0,
        forall|a: usize| #[trigger] (a & !((t.bytes() - 1) as usize)) == a - a % t.bytes(),
{
    reveal_with_fuel(is_power_of_two, 32);
    match t {
        PageType::Small => {
            assert(forall|a: usize| #[trigger] (a & !(4095usize)) == a - a % 4096) by (bit_vector);
        },
        PageType::Large => {
            assert(forall|a: usize| #[trigger] (a & !(0x1f_ffffusize)) == a - a % 0x20_0000)
                by (bit_vector);
        },
        PageType::Huge => {
            assert(forall|a: usize| #[trigger] (a & !(0x3fff_ffffusize)) == a - a % 0x4000_0000)
                by (bit_vector);
        },
    }
}

} // verus!
