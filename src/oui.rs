use vstd::prelude::*;

verus! {

/// The low 48 bits of a `u64`, where an address lives.
pub const LOW48: u64 = 0xffff_ffff_ffff;

pub open spec fn is_hex_digit(c: char) -> bool {
    ('0' <= c && c <= '9') || ('a' <= c && c <= 'f') || ('A' <= c && c <= 'F')
}

pub open spec fn hex_value(c: char) -> int {
    if '0' <= c && c <= '9' {
        c as int - '0' as int
    } else if 'a' <= c && c <= 'f' {
        c as int - 'a' as int + 10
    } else {
        c as int - 'A' as int + 10
    }
}

/// The fields of `s` between colons, left to right; there is always at least one.
pub open spec fn colon_fields(s: Seq<char>) -> Seq<Seq<char>>
    decreases s.len(),
{
    if s.len() == 0 {
        seq![Seq::empty()]
    } else {
        let f = colon_fields(s.drop_last());
        if s.last() == ':' {
            f.push(Seq::empty())
        } else {
            f.update(f.len() - 1, f.last().push(s.last()))
        }
    }
}

/// An octet written as one or two hexadecimal digits.
pub open spec fn is_octet_text(t: Seq<char>) -> bool {
    1 <= t.len() <= 2 && forall|j: int| 0 <= j < t.len() ==> is_hex_digit(#[trigger] t[j])
}

/// The value of up to two hexadecimal digits (0 for none).
pub open spec fn octet_value(t: Seq<char>) -> int {
    if t.len() == 0 {
        0
    } else if t.len() == 1 {
        hex_value(t[0])
    } else {
        hex_value(t[0]) * 16 + hex_value(t[1])
    }
}

/// One to six colon-separated octets of one or two hex digits each.
pub open spec fn is_address_text(s: Seq<char>) -> bool {
    let f = colon_fields(s);
    f.len() <= 6 && forall|k: int| 0 <= k < f.len() ==> is_octet_text(#[trigger] f[k])
}

/// The six octets that an address text denotes: missing trailing octets are zero.
pub open spec fn address_text_octets(s: Seq<char>) -> Seq<u8> {
    let f = colon_fields(s);
    Seq::new(6, |k: int| if k < f.len() { octet_value(f[k]) as u8 } else { 0u8 })
}

/// The 48-bit integer of six octets, most significant first.
pub open spec fn octets_value(o: Seq<u8>) -> u64 {
    ((o[0] as u64) << 40u64) | ((o[1] as u64) << 32u64) | ((o[2] as u64) << 24u64) | ((o[3] as u64)
        << 16u64) | ((o[4] as u64) << 8u64) | (o[5] as u64)
}

/// The six octets of the low 48 bits of `v`, most significant first.
pub open spec fn value_octets(v: u64) -> Seq<u8> {
    seq![
        ((v >> 40u64) & 0xff) as u8,
        ((v >> 32u64) & 0xff) as u8,
        ((v >> 24u64) & 0xff) as u8,
        ((v >> 16u64) & 0xff) as u8,
        ((v >> 8u64) & 0xff) as u8,
        (v & 0xff) as u8,
    ]
}

/// A 48-bit hardware address as six octets, most significant first.
#[derive(Clone, Copy, PartialEq, Eq, PartialOrd, Ord, Hash, Debug)]
pub struct MacAddress(pub [u8; 6]);

/// The error of parsing a text that is not an address.
#[derive(Clone, Copy, PartialEq, Eq, Debug)]
pub struct MacAddressParseError;

impl MacAddressParseError {
    pub fn message(&self) -> (r: String)
        ensures
            r@ == "Invalid MAC address"@,
    {
        String::from_str("Invalid MAC address")
    }
}

impl std::str::FromStr for MacAddress {
    type Err = MacAddressParseError;

    fn from_str(s: &str) -> (r: Result<Self, Self::Err>)
        ensures
            r is Ok == is_address_text(s@),
            r matches Ok(a) ==> a.0@ == address_text_octets(s@),
    {
        match Self::parse(s) {
            Some(a) => Ok(a),
            None => Err(MacAddressParseError),
        }
    }
}

impl MacAddress {
    pub open spec fn value(self) -> u64 {
        octets_value(self.0@)
    }

    /// Parses one to six colon-separated octets of one or two hex digits; missing trailing
    /// octets are zero. Returns `None` on anything else.
    pub fn parse(s: &str) -> (r: Option<Self>)
        ensures
            r.is_some() == is_address_text(s@),
            r.is_some() ==> r.unwrap().0@ == address_text_octets(s@),
    {
        let n = s.unicode_len();
        let mut octets: [u8; 6] = [0u8; 6];
        let mut done: usize = 0;
        let mut cur_len: usize = 0;
        let mut cur_val: u8 = 0;
        let mut i: usize = 0;
        while i < n
            invariant
                n == s@.len(),
                i <= n,
                fields_state(s@.take(i as int), octets@, done, cur_len, cur_val),
            decreases n - i,
        {
            let c = s.get_char(i);
            proof {
                lemma_fields_step(s@.take(i as int), c);
                assert(s@.take(i + 1) =~= s@.take(i as int).push(c));
            }
            if c == ':' {
                if cur_len == 0 || done == 5 {
                    proof {
                        let g = colon_fields(s@.take(i + 1));
                        assert(g[done as int] == colon_fields(s@.take(i as int)).last());
                        assert(!is_octet_text(g[done as int]) || g.len() > 6);
                        lemma_rejected_stays(s@, i + 1);
                    }
                    return None;
                }
                octets[done] = cur_val;
                done = done + 1;
                cur_len = 0;
                cur_val = 0;
            } else {
                match hex_digit(c) {
                    Some(d) => {
                        if cur_len == 2 {
                            proof {
                                lemma_rejected_stays(s@, i + 1);
                            }
                            return None;
                        }
                        proof {
                            let t = colon_fields(s@.take(i + 1)).last();
                            assert(t == colon_fields(s@.take(i as int)).last().push(c));
                        }
                        cur_val = cur_val * 16 + d;
                        cur_len = cur_len + 1;
                    },
                    None => {
                        proof {
                            let t = colon_fields(s@.take(i + 1)).last();
                            assert(t[t.len() - 1] == c);
                            lemma_rejected_stays(s@, i + 1);
                        }
                        return None;
                    },
                }
            }
            i = i + 1;
        }
        proof {
            assert(s@.take(n as int) =~= s@);
        }
        if cur_len == 0 {
            return None;
        }
        octets[done] = cur_val;
        let r = MacAddress(octets);
        proof {
            let f = colon_fields(s@);
            assert forall|k: int| 0 <= k < f.len() implies is_octet_text(#[trigger] f[k]) by {}
            assert(r.0@ =~= address_text_octets(s@));
        }
        Some(r)
    }

    /// The address in the low 48 bits of a `u64`.
    pub fn to_u64(self) -> (r: u64)
        ensures
            r == self.value(),
            r <= LOW48,
    {
        let o = self.0;
        let (a, b, c, d, e, f) = (o[0] as u64, o[1] as u64, o[2] as u64, o[3] as u64, o[4] as u64, o[5] as u64);
        proof {
            lemma_octets_value_bound(a, b, c, d, e, f);
        }
        (a << 40u64) | (b << 32u64) | (c << 24u64) | (d << 16u64) | (e << 8u64) | f
    }

    /// The address held in the low 48 bits of `val`; the upper 16 bits are ignored.
    pub fn from_u64(val: u64) -> (r: Self)
        ensures
            r.0@ == value_octets(val),
            r.value() == val & LOW48,
    {
        let r = MacAddress(
            [
                ((val >> 40u64) & 0xff) as u8,
                ((val >> 32u64) & 0xff) as u8,
                ((val >> 24u64) & 0xff) as u8,
                ((val >> 16u64) & 0xff) as u8,
                ((val >> 8u64) & 0xff) as u8,
                (val & 0xff) as u8,
            ],
        );
        proof {
            assert(r.0@ =~= value_octets(val));
            lemma_value_octets_round_trip(val);
        }
        r
    }
}

/// The value of a hex digit, or `None` for any other character.
fn hex_digit(c: char) -> (r: Option<u8>)
    ensures
        r.is_some() == is_hex_digit(c),
        r.is_some() ==> r.unwrap() as int == hex_value(c) && r.unwrap() < 16,
{
    if '0' <= c && c <= '9' {
        Some((c as u32 - '0' as u32) as u8)
    } else if 'a' <= c && c <= 'f' {
        Some((c as u32 - 'a' as u32 + 10) as u8)
    } else if 'A' <= c && c <= 'F' {
        Some((c as u32 - 'A' as u32 + 10) as u8)
    } else {
        None
    }
}

/// A prefix of an address text that can still be completed into a valid one.
pub open spec fn is_address_start(t: Seq<char>) -> bool {
    let f = colon_fields(t);
    &&& f.len() <= 6
    &&& forall|k: int| 0 <= k < f.len() - 1 ==> is_octet_text(#[trigger] f[k])
    &&& f.last().len() <= 2
    &&& forall|j: int| 0 <= j < f.last().len() ==> is_hex_digit(#[trigger] f.last()[j])
}

/// What the address parser knows after reading the text `t`.
spec fn fields_state(t: Seq<char>, octets: Seq<u8>, done: usize, cur_len: usize, cur_val: u8) -> bool {
    let f = colon_fields(t);
    &&& octets.len() == 6
    &&& f.len() == done + 1
    &&& done <= 5
    &&& forall|k: int| 0 <= k < done ==> is_octet_text(#[trigger] f[k]) && octets[k] as int == octet_value(f[k])
    &&& forall|k: int| done <= k < 6 ==> octets[k] == 0
    &&& f.last().len() == cur_len
    &&& cur_len <= 2
    &&& forall|j: int| 0 <= j < cur_len ==> is_hex_digit(#[trigger] f.last()[j])
    &&& cur_val as int == octet_value(f.last())
    &&& cur_len <= 1 ==> cur_val < 16
}

proof fn lemma_fields_len(t: Seq<char>)
    ensures
        colon_fields(t).len() >= 1,
    decreases t.len(),
{
    if t.len() > 0 {
        lemma_fields_len(t.drop_last());
    }
}

/// Reading one more character: how the fields grow.
proof fn lemma_fields_step(t: Seq<char>, c: char)
    ensures
        colon_fields(t).len() >= 1,
        c == ':' ==> colon_fields(t.push(c)) == colon_fields(t).push(Seq::empty()),
        c != ':' ==> colon_fields(t.push(c)) == colon_fields(t).update(
            colon_fields(t).len() - 1,
            colon_fields(t).last().push(c),
        ),
{
    lemma_fields_len(t);
    assert(t.push(c).drop_last() =~= t);
}

/// Once a text can no longer be completed into an address, no longer text can.
proof fn lemma_start_shrinks(t: Seq<char>, c: char)
    requires
        is_address_start(t.push(c)),
    ensures
        is_address_start(t),
{
    lemma_fields_step(t, c);
    let f = colon_fields(t);
    let g = colon_fields(t.push(c));
    if c == ':' {
        assert(g[f.len() - 1] == f.last());
        assert(is_octet_text(g[f.len() - 1]));
        assert forall|k: int| 0 <= k < f.len() - 1 implies is_octet_text(#[trigger] f[k]) by {
            assert(g[k] == f[k]);
        }
    } else {
        assert forall|j: int| 0 <= j < f.last().len() implies is_hex_digit(#[trigger] f.last()[j]) by {
            assert(g.last()[j] == f.last()[j]);
        }
        assert forall|k: int| 0 <= k < f.len() - 1 implies is_octet_text(#[trigger] f[k]) by {
            assert(g[k] == f[k]);
        }
    }
}

proof fn lemma_rejected_stays(s: Seq<char>, i: int)
    requires
        0 <= i <= s.len(),
        !is_address_start(s.take(i)),
    ensures
        !is_address_text(s),
    decreases s.len() - i,
{
    if i == s.len() {
        assert(s.take(i) =~= s);
        lemma_fields_len(s);
    } else {
        assert(s.take(i + 1) =~= s.take(i).push(s[i]));
        if is_address_start(s.take(i + 1)) {
            lemma_start_shrinks(s.take(i), s[i]);
        }
        lemma_rejected_stays(s, i + 1);
    }
}

proof fn lemma_octets_value_bound(a: u64, b: u64, c: u64, d: u64, e: u64, f: u64)
    by (bit_vector)
    requires
        a < 256,
        b < 256,
        c < 256,
        d < 256,
        e < 256,
        f < 256,
    ensures
        (a << 40u64) | (b << 32u64) | (c << 24u64) | (d << 16u64) | (e << 8u64) | f <= 0xffff_ffff_ffffu64,
        ((((a << 40u64) | (b << 32u64) | (c << 24u64) | (d << 16u64) | (e << 8u64) | f) >> 40u64) & 0xff) == a,
        ((((a << 40u64) | (b << 32u64) | (c << 24u64) | (d << 16u64) | (e << 8u64) | f) >> 32u64) & 0xff) == b,
        ((((a << 40u64) | (b << 32u64) | (c << 24u64) | (d << 16u64) | (e << 8u64) | f) >> 24u64) & 0xff) == c,
        ((((a << 40u64) | (b << 32u64) | (c << 24u64) | (d << 16u64) | (e << 8u64) | f) >> 16u64) & 0xff) == d,
        ((((a << 40u64) | (b << 32u64) | (c << 24u64) | (d << 16u64) | (e << 8u64) | f) >> 8u64) & 0xff) == e,
        (((a << 40u64) | (b << 32u64) | (c << 24u64) | (d << 16u64) | (e << 8u64) | f) & 0xff) == f,
{
}

/// Reading the octets of a value and packing them again keeps its low 48 bits.
pub proof fn lemma_value_octets_round_trip(v: u64)
    ensures
        octets_value(value_octets(v)) == v & LOW48,
{
    let o = value_octets(v);
    let (a, b, c, d, e, f) = (o[0], o[1], o[2], o[3], o[4], o[5]);
    assert(((((v >> 40u64) & 0xff) as u8) as u64) << 40u64 | ((((v >> 32u64) & 0xff) as u8) as u64)
        << 32u64 | ((((v >> 24u64) & 0xff) as u8) as u64) << 24u64 | ((((v >> 16u64) & 0xff) as u8)
        as u64) << 16u64 | ((((v >> 8u64) & 0xff) as u8) as u64) << 8u64 | (((v & 0xff) as u8)
        as u64) == v & 0xffff_ffff_ffff) by (bit_vector);
}

/// Turning an address into its integer and back gives the same address.
pub proof fn lemma_address_integer_round_trip(a: MacAddress)
    ensures
        value_octets(a.value()) == a.0@,
        a.value() <= LOW48,
{
    let o = a.0@;
    lemma_octets_value_bound(o[0] as u64, o[1] as u64, o[2] as u64, o[3] as u64, o[4] as u64, o[5] as u64);
    let w = a.value();
    assert(((w >> 40u64) & 0xff) as u8 == o[0]);
    assert(((w >> 32u64) & 0xff) as u8 == o[1]);
    assert(((w >> 24u64) & 0xff) as u8 == o[2]);
    assert(((w >> 16u64) & 0xff) as u8 == o[3]);
    assert(((w >> 8u64) & 0xff) as u8 == o[4]);
    assert((w & 0xff) as u8 == o[5]);
    assert(value_octets(a.value()) =~= a.0@);
}

/// The 48-bit mask whose top `l` bits are set.
pub open spec fn prefix_mask(l: u64) -> u64 {
    (((1u64 << l) - 1) as u64) << ((48 - l) as u64)
}

/// The top `l` of the 48 bits of `v`.
pub open spec fn top_bits(v: u64, l: u64) -> u64 {
    (v & LOW48) >> ((48 - l) as u64)
}

/// The last address of the block of length `l` that starts at `base`.
pub open spec fn block_end(base: u64, l: u64) -> u64 {
    base | (!prefix_mask(l) & LOW48)
}

/// A digit string, read in base ten.
pub open spec fn decimal_value(t: Seq<char>) -> int
    decreases t.len(),
{
    if t.len() == 0 {
        0
    } else {
        decimal_value(t.drop_last()) * 10 + (t.last() as int - '0' as int)
    }
}

pub open spec fn is_decimal_digit(c: char) -> bool {
    '0' <= c && c <= '9'
}

/// A prefix length written in decimal: one or more digits, at most 48.
pub open spec fn is_length_text(t: Seq<char>) -> bool {
    &&& t.len() >= 1
    &&& forall|j: int| 0 <= j < t.len() ==> is_decimal_digit(#[trigger] t[j])
    &&& decimal_value(t) <= 48
}

/// Where the first `/` of `s` stands, or the length of `s` where there is none.
pub open spec fn slash_pos(s: Seq<char>) -> int
    decreases s.len(),
{
    if s.len() == 0 {
        0
    } else if s[0] == '/' {
        0
    } else {
        1 + slash_pos(s.subrange(1, s.len() as int))
    }
}

/// An address text, optionally followed by `/` and a prefix length.
pub open spec fn is_prefix_text(s: Seq<char>) -> bool {
    let p = slash_pos(s);
    if p < s.len() {
        is_address_text(s.take(p)) && is_length_text(s.skip(p + 1))
    } else {
        is_address_text(s)
    }
}

/// The prefix length that a prefix text gives: 24 where none is written.
pub open spec fn prefix_text_len(s: Seq<char>) -> int {
    let p = slash_pos(s);
    if p < s.len() {
        decimal_value(s.skip(p + 1))
    } else {
        24
    }
}

/// The address part of a prefix text.
pub open spec fn prefix_text_address(s: Seq<char>) -> Seq<char> {
    s.take(slash_pos(s))
}

/// An address block: an address whose bits below the prefix length are zero, and that length.
#[derive(Clone, Copy, PartialEq, Eq, Structural, Hash, Debug)]
pub struct MacPrefix {
    /// The prefix length in bits 63..56, the masked address in bits 47..0.
    val: u64,
}

impl MacPrefix {
    #[verifier::type_invariant]
    spec fn packed(self) -> bool {
        &&& self.val >> 56u64 <= 48
        &&& (self.val >> 48u64) & 0xff == 0
        &&& (self.val & LOW48) & prefix_mask(self.val >> 56u64) == self.val & LOW48
    }

    /// The prefix length.
    pub closed spec fn len(self) -> u64 {
        if self.val >> 56u64 <= 48 {
            self.val >> 56u64
        } else {
            48
        }
    }

    /// The first address of the block, as an integer.
    pub closed spec fn base(self) -> u64 {
        (self.val & LOW48) & prefix_mask(self.len())
    }

    /// Whether the address whose integer is `x` lies in the block.
    pub open spec fn covers(self, x: u64) -> bool {
        top_bits(x, self.len()) == top_bits(self.base(), self.len())
    }

    /// The last address of the block, as an integer.
    pub open spec fn end(self) -> u64 {
        block_end(self.base(), self.len())
    }

    /// The prefix of length `l` of the address whose integer is `v`.
    pub open spec fn spec_from_parts(v: u64, l: u64) -> (u64, u64) {
        (v & prefix_mask(l), l)
    }

    /// The block of length `l` that starts at the address whose integer is `base`.
    pub closed spec fn block(base: u64, l: u64) -> MacPrefix {
        MacPrefix { val: (l << 56u64) | base }
    }

    /// A block is given by its start and its length: these are what `len` and `base` give back.
    pub proof fn lemma_block(base: u64, l: u64)
        requires
            l <= 48,
            base <= LOW48,
            base & prefix_mask(l) == base,
        ensures
            Self::block(base, l).len() == l,
            Self::block(base, l).base() == base,
    {
        assert(l <= 48 && base <= 0xffff_ffff_ffffu64 && base & prefix_mask(l) == base ==> ((l
            << 56u64) | base) >> 56u64 == l && (((l << 56u64) | base) & 0xffff_ffff_ffffu64)
            & prefix_mask(l) == base) by (bit_vector);
    }

    /// Two blocks are equal exactly when their starts and their lengths are.
    pub proof fn lemma_block_injective(b1: u64, l1: u64, b2: u64, l2: u64)
        requires
            l1 <= 48,
            b1 <= LOW48,
            l2 <= 48,
            b2 <= LOW48,
        ensures
            (Self::block(b1, l1) == Self::block(b2, l2)) <==> (b1 == b2 && l1 == l2),
    {
        assert(l1 <= 48 && b1 <= 0xffff_ffff_ffffu64 && l2 <= 48 && b2 <= 0xffff_ffff_ffffu64 && ((l1
            << 56u64) | b1) == ((l2 << 56u64) | b2) ==> b1 == b2 && l1 == l2) by (bit_vector);
    }

    /// Every block has a length of at most 48 and a first address with no bit below it.
    pub proof fn lemma_shape(self)
        ensures
            self.len() <= 48,
            self.base() <= LOW48,
            self.base() & prefix_mask(self.len()) == self.base(),
    {
        let v = self.val;
        let l = self.len();
        assert(l <= 48 ==> (v & 0xffff_ffff_ffffu64) & prefix_mask(l) <= 0xffff_ffff_ffffu64 && ((v
            & 0xffff_ffff_ffffu64) & prefix_mask(l)) & prefix_mask(l) == (v & 0xffff_ffff_ffffu64)
            & prefix_mask(l)) by (bit_vector);
    }

    proof fn lemma_packed(self)
        requires
            self.packed(),
        ensures
            self.len() == self.val >> 56u64,
            self.base() == self.val & LOW48,
    {
    }

    /// The mask of the top `prefix_len` of 48 bits.
    fn mask(prefix_len: u8) -> (r: u64)
        requires
            prefix_len <= 48,
        ensures
            r == prefix_mask(prefix_len as u64),
            r <= LOW48,
    {
        let l = prefix_len as u64;
        proof {
            lemma_mask_bound(l);
        }
        ((1u64 << l) - 1) << (48 - l)
    }

    /// Parses an address text, optionally followed by `/` and a decimal prefix length of at
    /// most 48; without one the length is 24.
    pub fn parse(s: &str) -> (r: Option<Self>)
        ensures
            r.is_some() == is_prefix_text(s@),
            r.is_some() ==> r.unwrap().len() == prefix_text_len(s@) && r.unwrap().base()
                == octets_value(address_text_octets(prefix_text_address(s@))) & prefix_mask(
                r.unwrap().len(),
            ),
            r.is_some() ==> r.unwrap() == Self::block(
                octets_value(address_text_octets(prefix_text_address(s@))) & prefix_mask(
                    prefix_text_len(s@) as u64,
                ),
                prefix_text_len(s@) as u64,
            ),
    {
        let n = s.unicode_len();
        let mut i: usize = 0;
        while i < n && s.get_char(i) != '/'
            invariant
                n == s@.len(),
                i <= n,
                forall|j: int| 0 <= j < i ==> s@[j] != '/',
            decreases n - i,
        {
            i = i + 1;
        }
        proof {
            lemma_slash_pos(s@);
            let p = slash_pos(s@);
            if p < i {
                assert(s@[p] == '/');
            }
            if i < p {
                assert(s@[i as int] != '/');
            }
            assert(p == i);
        }
        let mac_text = s.substring_char(0, i);
        assert(mac_text@ =~= s@.take(i as int));
        let prefix_len: u8;
        if i < n {
            let len_text = s.substring_char(i + 1, n);
            assert(len_text@ =~= s@.skip(i + 1));
            match parse_length(len_text) {
                Some(l) => {
                    prefix_len = l;
                },
                None => {
                    return None;
                },
            }
        } else {
            assert(s@.take(i as int) =~= s@);
            prefix_len = 24;
        }
        match MacAddress::parse(mac_text) {
            Some(mac) => Some(Self::from_parts(mac, prefix_len)),
            None => None,
        }
    }

    /// The block of length `prefix_len` that holds `mac`.
    pub fn from_parts(mac: MacAddress, prefix_len: u8) -> (r: Self)
        requires
            prefix_len <= 48,
        ensures
            r.len() == prefix_len,
            r.base() == mac.value() & prefix_mask(prefix_len as u64),
            (r.base(), r.len()) == Self::spec_from_parts(mac.value(), prefix_len as u64),
            r == Self::block(mac.value() & prefix_mask(prefix_len as u64), prefix_len as u64),
    {
        let m = Self::mask(prefix_len);
        let v = mac.to_u64();
        let l = prefix_len as u64;
        let val = (l << 56u64) | (v & m);
        proof {
            lemma_pack(l, v, val);
        }
        let r = Self { val };
        proof {
            r.lemma_packed();
        }
        r
    }

    /// Whether two blocks are equal; they are exactly when their starts and lengths are.
    pub fn same_block(p: MacPrefix, q: MacPrefix) -> (r: bool)
        ensures
            r == (p == q),
            (p == q) <==> (p.len() == q.len() && p.base() == q.base()),
    {
        proof {
            use_type_invariant(p);
            use_type_invariant(q);
            p.lemma_packed();
            q.lemma_packed();
            let (a, b) = (p.val, q.val);
            assert((a >> 48u64) & 0xff == 0 && (b >> 48u64) & 0xff == 0 && a >> 56u64 == b >> 56u64
                && a & 0xffff_ffff_ffffu64 == b & 0xffff_ffff_ffffu64 ==> a == b) by (bit_vector);
        }
        p.val == q.val
    }

    /// The first address of the block.
    pub fn mac(self) -> (r: MacAddress)
        ensures
            r.value() == self.base(),
    {
        proof {
            use_type_invariant(self);
            self.lemma_packed();
            self.lemma_shape();
            let v = self.val;
            assert(v & 0xffff_ffff_ffffu64 & 0xffff_ffff_ffffu64 == v & 0xffff_ffff_ffffu64) by (bit_vector);
        }
        MacAddress::from_u64(self.val & LOW48)
    }

    /// The prefix length.
    pub fn prefix_len(self) -> (r: u8)
        ensures
            r as u64 == self.len(),
            r <= 48,
    {
        proof {
            use_type_invariant(self);
            self.lemma_packed();
        }
        (self.val >> 56u64) as u8
    }

    /// The integer of the first address of the block.
    pub fn base_value(self) -> (r: u64)
        ensures
            r == self.base(),
    {
        self.mac().to_u64()
    }

    /// The integer of the last address of the block.
    pub fn end_value(self) -> (r: u64)
        ensures
            r == self.end(),
    {
        proof {
            use_type_invariant(self);
            self.lemma_packed();
        }
        let mask = Self::mask(self.prefix_len());
        (self.val & LOW48) | (!mask & LOW48)
    }

    /// Whether `mac` lies in the block: its top bits, as many as the prefix length, are those
    /// of the block.
    pub fn matches(self, mac: MacAddress) -> (r: bool)
        ensures
            r == self.covers(mac.value()),
    {
        proof {
            use_type_invariant(self);
            self.lemma_packed();
        }
        let l = self.prefix_len();
        let mask = Self::mask(l);
        let x = mac.to_u64();
        proof {
            lemma_mask_top_bits(l as u64, x, self.val);
        }
        (x & mask) == (self.val & mask)
    }
}

/// The prefix of length `l` of an address covers exactly the addresses whose top `l` bits are
/// those of that address.
pub proof fn lemma_prefix_covers_top_bits(a: MacAddress, l: u64, x: MacAddress)
    requires
        l <= 48,
    ensures
        ({
            let (base, len) = MacPrefix::spec_from_parts(a.value(), l);
            top_bits(x.value(), len) == top_bits(base, len)
        }) <==> top_bits(x.value(), l) == top_bits(a.value(), l),
{
    lemma_address_integer_round_trip(a);
    lemma_address_integer_round_trip(x);
    let v = a.value();
    assert(l <= 48 && v <= 0xffff_ffff_ffffu64 ==> top_bits(v & prefix_mask(l), l) == top_bits(v, l))
        by (bit_vector);
}

/// A block covers an address exactly when the address lies between its first and its last
/// address.
pub proof fn lemma_covers_range(p: MacPrefix, x: u64)
    requires
        x <= LOW48,
    ensures
        p.covers(x) <==> p.base() <= x <= p.end(),
        p.base() <= p.end(),
{
    p.lemma_shape();
    let b = p.base();
    let l = p.len();
    assert(l <= 48 && b <= 0xffff_ffff_ffffu64 && x <= 0xffff_ffff_ffffu64 && b & prefix_mask(l) == b
        ==> ((top_bits(x, l) == top_bits(b, l)) <==> (b <= x && x <= block_end(b, l))) && b
        <= block_end(b, l)) by (bit_vector);
}

proof fn lemma_mask_bound(l: u64)
    by (bit_vector)
    requires
        l <= 48,
    ensures
        (1u64 << l) >= 1,
        (((1u64 << l) - 1) as u64) << ((48 - l) as u64) <= 0xffff_ffff_ffffu64,
        l <= 48,
{
}

proof fn lemma_mask_top_bits(l: u64, x: u64, val: u64)
    by (bit_vector)
    requires
        l <= 48,
        x <= 0xffff_ffff_ffffu64,
        val >> 56u64 == l,
        (val >> 48u64) & 0xff == 0,
    ensures
        ((x & prefix_mask(l)) == (val & prefix_mask(l))) == (top_bits(x, l) == top_bits(
            val & 0xffff_ffff_ffffu64,
            l,
        )),
{
}

proof fn lemma_pack(l: u64, v: u64, val: u64)
    by (bit_vector)
    requires
        l <= 48,
        v <= 0xffff_ffff_ffffu64,
        val == (l << 56u64) | (v & prefix_mask(l)),
    ensures
        val >> 56u64 == l,
        (val >> 48u64) & 0xff == 0,
        val & 0xffff_ffff_ffffu64 == v & prefix_mask(l),
        (val & 0xffff_ffff_ffffu64) & prefix_mask(val >> 56u64) == val & 0xffff_ffff_ffffu64,
{
}

proof fn lemma_slash_pos(s: Seq<char>)
    ensures
        0 <= slash_pos(s) <= s.len(),
        slash_pos(s) < s.len() ==> s[slash_pos(s)] == '/',
        forall|j: int| 0 <= j < slash_pos(s) ==> s[j] != '/',
    decreases s.len(),
{
    if s.len() > 0 && s[0] != '/' {
        let t = s.subrange(1, s.len() as int);
        lemma_slash_pos(t);
        assert forall|j: int| 0 <= j < slash_pos(s) implies s[j] != '/' by {
            if j > 0 {
                assert(s[j] == t[j - 1]);
            }
        }
    }
}

proof fn lemma_decimal_nonneg(t: Seq<char>)
    requires
        forall|j: int| 0 <= j < t.len() ==> is_decimal_digit(#[trigger] t[j]),
    ensures
        decimal_value(t) >= 0,
    decreases t.len(),
{
    if t.len() > 0 {
        lemma_decimal_nonneg(t.drop_last());
        assert(is_decimal_digit(t[t.len() - 1]));
    }
}

proof fn lemma_decimal_grows(t: Seq<char>, i: int)
    requires
        0 <= i <= t.len(),
        forall|j: int| 0 <= j < t.len() ==> is_decimal_digit(#[trigger] t[j]),
    ensures
        decimal_value(t.take(i)) <= decimal_value(t),
    decreases t.len() - i,
{
    if i < t.len() {
        lemma_decimal_grows(t, i + 1);
        lemma_decimal_nonneg(t.take(i));
        assert(t.take(i + 1).drop_last() =~= t.take(i));
        assert(t.take(i + 1).last() == t[i]);
    } else {
        assert(t.take(i) =~= t);
    }
}

/// Reads a prefix length: one or more decimal digits, with a value of at most 48.
fn parse_length(t: &str) -> (r: Option<u8>)
    ensures
        r.is_some() == is_length_text(t@),
        r.is_some() ==> r.unwrap() as int == decimal_value(t@),
{
    let n = t.unicode_len();
    if n == 0 {
        return None;
    }
    let mut v: u8 = 0;
    let mut i: usize = 0;
    while i < n
        invariant
            n == t@.len(),
            i <= n,
            v <= 48,
            v as int == decimal_value(t@.take(i as int)),
            forall|j: int| 0 <= j < i ==> is_decimal_digit(#[trigger] t@[j]),
        decreases n - i,
    {
        let c = t.get_char(i);
        assert(t@.take(i + 1).drop_last() =~= t@.take(i as int));
        if !('0' <= c && c <= '9') {
            return None;
        }
        let d = (c as u32 - '0' as u32) as u8;
        if v > 4 || v * 10 + d > 48 {
            proof {
                assert(decimal_value(t@.take(i + 1)) > 48);
                if forall|j: int| 0 <= j < t@.len() ==> is_decimal_digit(#[trigger] t@[j]) {
                    lemma_decimal_grows(t@, i + 1);
                }
            }
            return None;
        }
        v = v * 10 + d;
        i = i + 1;
    }
    assert(t@.take(n as int) =~= t@);
    Some(v)
}

/// The characters that Unicode calls white space, as `char::is_whitespace` lists them.
pub open spec fn is_space(c: char) -> bool {
    ('\u{9}' <= c && c <= '\u{d}') || c == ' ' || c == '\u{85}' || c == '\u{a0}' || c == '\u{1680}'
        || ('\u{2000}' <= c && c <= '\u{200a}') || c == '\u{2028}' || c == '\u{2029}' || c
        == '\u{202f}' || c == '\u{205f}' || c == '\u{3000}'
}

fn is_space_char(c: char) -> (r: bool)
    ensures
        r == is_space(c),
{
    ('\u{9}' <= c && c <= '\u{d}') || c == ' ' || c == '\u{85}' || c == '\u{a0}' || c == '\u{1680}'
        || ('\u{2000}' <= c && c <= '\u{200a}') || c == '\u{2028}' || c == '\u{2029}' || c
        == '\u{202f}' || c == '\u{205f}' || c == '\u{3000}'
}

/// The first index at or after `from` whose character is white space (`space`) or is not
/// (`!space`); the length of `s` where there is none.
pub open spec fn next_where(s: Seq<char>, from: int, space: bool) -> int
    decreases s.len() - from,
{
    if from >= s.len() {
        s.len() as int
    } else if is_space(s[from]) == space {
        from
    } else {
        next_where(s, from + 1, space)
    }
}

/// Where the fields of a database line start and end: the prefix text is `a..b`, the short
/// name `c..d`, the long name `e..` to the end of the line.
pub open spec fn manuf_bounds(s: Seq<char>) -> (int, int, int, int, int) {
    let a = next_where(s, 0, false);
    let b = next_where(s, a, true);
    let c = next_where(s, b, false);
    let d = next_where(s, c, true);
    let e = next_where(s, d, false);
    (a, b, c, d, e)
}

/// A database line that is no comment and has a prefix text, a short name and a long name.
pub open spec fn has_manuf_fields(s: Seq<char>) -> bool {
    let (a, b, c, d, e) = manuf_bounds(s);
    !(a < s.len() && s[a] == '#') && e < s.len()
}

pub open spec fn manuf_prefix_text(s: Seq<char>) -> Seq<char> {
    let (a, b, c, d, e) = manuf_bounds(s);
    s.subrange(a, b)
}

pub open spec fn manuf_short_name(s: Seq<char>) -> Seq<char> {
    let (a, b, c, d, e) = manuf_bounds(s);
    s.subrange(c, d)
}

pub open spec fn manuf_long_name(s: Seq<char>) -> Seq<char> {
    let (a, b, c, d, e) = manuf_bounds(s);
    s.subrange(e, s.len() as int)
}

/// A line of the database is a record when it has its three fields and the first is a prefix.
pub open spec fn is_manuf_record(s: Seq<char>) -> bool {
    has_manuf_fields(s) && is_prefix_text(manuf_prefix_text(s))
}

proof fn lemma_next_where_bounds(s: Seq<char>, from: int, space: bool)
    requires
        0 <= from <= s.len(),
    ensures
        from <= next_where(s, from, space) <= s.len(),
    decreases s.len() - from,
{
    if from < s.len() && is_space(s[from]) != space {
        lemma_next_where_bounds(s, from + 1, space);
    }
}

/// The first index at or after `from` whose character is (or is not) white space.
fn find_next(s: &str, n: usize, from: usize, space: bool) -> (r: usize)
    requires
        n == s@.len(),
        from <= n,
    ensures
        r == next_where(s@, from as int, space),
        from <= r <= n,
{
    let mut i = from;
    while i < n && is_space_char(s.get_char(i)) != space
        invariant
            n == s@.len(),
            from <= i <= n,
            next_where(s@, i as int, space) == next_where(s@, from as int, space),
        decreases n - i,
    {
        i = i + 1;
    }
    i
}

/// A vendor record: an address block with the vendor's short and long names.
pub struct Oui {
    pub mac_prefix: MacPrefix,
    pub short_name: String,
    pub long_name: String,
}

impl Oui {
    /// Reads one line of the database: leading white space is skipped; a line whose first
    /// character is then `#` is a comment. Otherwise the line is a prefix, white space, a short
    /// name, white space and a long name that runs to the end of the line.
    pub fn from_manuf(s: &str) -> (r: Option<Self>)
        ensures
            r.is_some() == is_manuf_record(s@),
            r.is_some() ==> {
                let o = r.unwrap();
                let t = manuf_prefix_text(s@);
                &&& o.short_name@ == manuf_short_name(s@)
                &&& o.long_name@ == manuf_long_name(s@)
                &&& o.mac_prefix.len() == prefix_text_len(t)
                &&& o.mac_prefix.base() == octets_value(
                    address_text_octets(prefix_text_address(t)),
                ) & prefix_mask(o.mac_prefix.len())
                &&& o.mac_prefix == MacPrefix::block(
                    octets_value(address_text_octets(prefix_text_address(t))) & prefix_mask(
                        prefix_text_len(t) as u64,
                    ),
                    prefix_text_len(t) as u64,
                )
            },
    {
        let n = s.unicode_len();
        let a = find_next(s, n, 0, false);
        if a < n && s.get_char(a) == '#' {
            return None;
        }
        let b = find_next(s, n, a, true);
        let c = find_next(s, n, b, false);
        let d = find_next(s, n, c, true);
        let e = find_next(s, n, d, false);
        if e == n {
            return None;
        }
        let mac_prefix = match MacPrefix::parse(s.substring_char(a, b)) {
            Some(p) => p,
            None => {
                return None;
            },
        };
        let short_name = String::from_str(s.substring_char(c, d));
        let long_name = String::from_str(s.substring_char(e, n));
        Some(Oui { mac_prefix, short_name, long_name })
    }

    /// The first address of the record's block.
    pub fn mac(&self) -> (r: MacAddress)
        ensures
            r.value() == self.mac_prefix.base(),
    {
        self.mac_prefix.mac()
    }

    /// The prefix length of the record's block.
    pub fn prefix_len(&self) -> (r: u8)
        ensures
            r as u64 == self.mac_prefix.len(),
    {
        self.mac_prefix.prefix_len()
    }
}

impl PartialEq for Oui {
    /// Records are equal when their blocks are; the names do not count.
    fn eq(&self, o: &Oui) -> (r: bool)
        ensures
            r == (self.mac_prefix == o.mac_prefix),
    {
        self.mac_prefix == o.mac_prefix
    }
}

impl vstd::std_specs::cmp::PartialEqSpecImpl for Oui {
    open spec fn obeys_eq_spec() -> bool {
        true
    }

    open spec fn eq_spec(&self, o: &Oui) -> bool {
        self.mac_prefix == o.mac_prefix
    }
}

impl Eq for Oui {

}

/// A lowercase hex digit.
pub open spec fn hex_char(d: int) -> char {
    "0123456789abcdef"@[d]
}

/// An octet as two lowercase hex digits.
pub open spec fn octet_text(b: u8) -> Seq<char> {
    seq![hex_char(b as int / 16), hex_char(b as int % 16)]
}

/// Octets as two-digit hex, joined by colons.
pub open spec fn octets_text(o: Seq<u8>) -> Seq<char>
    decreases o.len(),
{
    if o.len() == 0 {
        Seq::empty()
    } else if o.len() == 1 {
        octet_text(o[0])
    } else {
        octets_text(o.drop_last()) + seq![':'] + octet_text(o.last())
    }
}

/// A number below 100 in decimal, without leading zeros.
pub open spec fn small_decimal_text(n: int) -> Seq<char> {
    if n < 10 {
        seq!["0123456789"@[n]]
    } else {
        seq!["0123456789"@[n / 10], "0123456789"@[n % 10]]
    }
}

/// How many octets a prefix length reaches into: the length divided by 8, rounded up.
pub open spec fn prefix_octets(l: int) -> int {
    (l + 7) / 8
}

/// The text of a block: its first address in full where the length is 0, else the octets
/// that the length reaches into, then `/` and the length.
pub open spec fn prefix_text(o: Seq<u8>, l: int) -> Seq<char> {
    if l == 0 {
        octets_text(o)
    } else {
        octets_text(o.take(prefix_octets(l))) + seq!['/'] + small_decimal_text(l)
    }
}

fn append_octet(out: &mut String, b: u8)
    ensures
        final(out)@ == old(out)@ + octet_text(b),
{
    let digits = "0123456789abcdef";
    proof {
        reveal_strlit("0123456789abcdef");
    }
    let hi = (b / 16) as usize;
    let lo = (b % 16) as usize;
    out.append(digits.substring_char(hi, hi + 1));
    out.append(digits.substring_char(lo, lo + 1));
    proof {
        assert(final(out)@ =~= old(out)@ + octet_text(b));
    }
}

/// Writes the first `count` octets of `o` as two-digit hex joined by colons.
fn octets_to_text(o: &[u8; 6], count: usize) -> (r: String)
    requires
        1 <= count <= 6,
    ensures
        r@ == octets_text(o@.take(count as int)),
{
    let mut out = String::new();
    let mut i: usize = 0;
    while i < count
        invariant
            i <= count <= 6,
            o@.len() == 6,
            out@ == octets_text(o@.take(i as int)),
        decreases count - i,
    {
        if i != 0 {
            out.append(":");
            proof {
                reveal_strlit(":");
            }
        }
        append_octet(&mut out, o[i]);
        proof {
            let t = o@.take(i + 1);
            assert(t.drop_last() =~= o@.take(i as int));
            assert(out@ =~= octets_text(t));
        }
        i = i + 1;
    }
    out
}

impl MacAddress {
    /// The address as six two-digit lowercase hex octets joined by colons.
    pub fn to_text(&self) -> (r: String)
        ensures
            r@ == octets_text(self.0@),
    {
        let r = octets_to_text(&self.0, 6);
        assert(self.0@.take(6) =~= self.0@);
        r
    }
}

impl MacPrefix {
    /// The block as text: the first address in full where the length is 0; else the octets
    /// that the length reaches into, `/` and the length.
    pub fn to_text(&self) -> (r: String)
        ensures
            r@ == prefix_text(value_octets(self.base()), self.len() as int),
    {
        let mac = self.mac();
        let l = self.prefix_len();
        proof {
            self.lemma_shape();
            lemma_address_integer_round_trip(mac);
            lemma_value_octets_round_trip(self.base());
            let b = self.base();
            assert(b & 0xffff_ffff_ffffu64 == b) by (bit_vector)
                requires
                    b <= 0xffff_ffff_ffffu64,
            ;
        }
        if l == 0 {
            let r = octets_to_text(&mac.0, 6);
            assert(mac.0@.take(6) =~= mac.0@);
            return r;
        }
        let count = ((l - 1) / 8 + 1) as usize;
        let mut out = octets_to_text(&mac.0, count);
        out.append("/");
        let digits = "0123456789";
        proof {
            reveal_strlit("/");
            reveal_strlit("0123456789");
        }
        if l >= 10 {
            let t = (l / 10) as usize;
            out.append(digits.substring_char(t, t + 1));
        }
        let u = (l % 10) as usize;
        out.append(digits.substring_char(u, u + 1));
        proof {
            assert(out@ =~= prefix_text(value_octets(self.base()), self.len() as int));
        }
        out
    }
}

/// The order of two integers.
pub open spec fn order_of(a: u64, b: u64) -> std::cmp::Ordering {
    if a < b {
        std::cmp::Ordering::Less
    } else if a > b {
        std::cmp::Ordering::Greater
    } else {
        std::cmp::Ordering::Equal
    }
}

fn compare_values(a: u64, b: u64) -> (r: std::cmp::Ordering)
    ensures
        r == order_of(a, b),
{
    if a < b {
        std::cmp::Ordering::Less
    } else if a > b {
        std::cmp::Ordering::Greater
    } else {
        std::cmp::Ordering::Equal
    }
}

impl PartialOrd for MacPrefix {
    /// Blocks are ordered by their first addresses alone: blocks that start at the same
    /// address compare equal whatever their lengths.
    fn partial_cmp(&self, o: &MacPrefix) -> (r: Option<std::cmp::Ordering>) {
        Some(compare_values(self.base_value(), o.base_value()))
    }
}

impl vstd::std_specs::cmp::PartialOrdSpecImpl for MacPrefix {
    open spec fn obeys_partial_cmp_spec() -> bool {
        true
    }

    open spec fn partial_cmp_spec(&self, o: &MacPrefix) -> Option<std::cmp::Ordering> {
        Some(order_of(self.base(), o.base()))
    }
}

impl PartialOrd for Oui {
    /// Records are ordered by the first addresses of their blocks.
    fn partial_cmp(&self, o: &Oui) -> (r: Option<std::cmp::Ordering>) {
        Some(compare_values(self.mac_prefix.base_value(), o.mac_prefix.base_value()))
    }
}

impl vstd::std_specs::cmp::PartialOrdSpecImpl for Oui {
    open spec fn obeys_partial_cmp_spec() -> bool {
        true
    }

    open spec fn partial_cmp_spec(&self, o: &Oui) -> Option<std::cmp::Ordering> {
        Some(order_of(self.mac_prefix.base(), o.mac_prefix.base()))
    }
}

} // verus!
