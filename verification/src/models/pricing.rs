//! Exact decimal prices.

use rust_decimal::Decimal;
use std::cmp::Ordering;
use vstd::prelude::*;

verus! {

/// The largest number of decimal places a price can have.
pub const MAX_SCALE: u32 = 28;

/// The largest magnitude of a price's mantissa: 96 bits.
pub const MAX_MANTISSA: i128 = 0xFFFF_FFFF_FFFF_FFFF_FFFF_FFFF;

/// Ten to the power `n`.
pub open spec fn pow10(n: nat) -> int
    decreases n,
{
    if n == 0 {
        1
    } else {
        10 * pow10((n - 1) as nat)
    }
}

/// Powers of ten are positive.
pub proof fn lemma_pow10_positive(n: nat)
    ensures
        pow10(n) > 0,
    decreases n,
{
    if n > 0 {
        lemma_pow10_positive((n - 1) as nat);
    }
}

/// A decimal without trailing zeros behind the decimal point: the mantissa
/// and scale that stand for the same number with the smallest scale. Zero has
/// the scale zero.
pub open spec fn strip_zeros(mantissa: int, scale: nat) -> (int, nat)
    decreases scale,
{
    if mantissa == 0 {
        (0, 0)
    } else if scale > 0 && mantissa % 10 == 0 {
        strip_zeros(mantissa / 10, (scale - 1) as nat)
    } else {
        (mantissa, scale)
    }
}

/// The text that `rust_decimal` displays for the decimal `mantissa /
/// 10^scale`: its digits with the decimal point `scale` places from the
/// right.
pub uninterp spec fn decimal_text(mantissa: int, scale: nat) -> Seq<char>;

/// The product that `rust_decimal` computes for two decimals, as mantissa and
/// scale, or nothing where the product overflows.
pub uninterp spec fn decimal_product(
    mantissa: int,
    scale: nat,
    by_mantissa: int,
    by_scale: nat,
) -> Option<(int, nat)>;

/// An exact decimal number: `mantissa / 10^scale`, with a mantissa of at most
/// 96 bits and at most 28 decimal places.
#[derive(Debug, Clone, Copy)]
pub struct Price {
    mantissa: i128,
    scale: u32,
}

impl Price {
    #[verifier::type_invariant]
    closed spec fn in_range(self) -> bool {
        Self::representable(self.mantissa, self.scale)
    }

    /// Whether a mantissa and a scale make a price.
    pub open spec fn representable(mantissa: i128, scale: u32) -> bool {
        -MAX_MANTISSA <= mantissa <= MAX_MANTISSA && scale <= MAX_SCALE
    }

    /// The digits of the price as a signed integer.
    pub closed spec fn spec_mantissa(&self) -> i128 {
        self.mantissa
    }

    /// The number of the price's digits that stand behind the decimal point.
    pub closed spec fn spec_scale(&self) -> u32 {
        self.scale
    }

    /// The price `mantissa / 10^scale`, if the two make a price.
    pub fn new(mantissa: i128, scale: u32) -> (price: Option<Price>)
        ensures
            price is Some <==> Self::representable(mantissa, scale),
            price matches Some(p) ==> p.mantissa() == mantissa && p.scale() == scale,
    {
        if scale <= MAX_SCALE && -MAX_MANTISSA <= mantissa && mantissa <= MAX_MANTISSA {
            Some(Price { mantissa, scale })
        } else {
            None
        }
    }

    /// The price zero.
    pub fn zero() -> (price: Price)
        ensures
            price.mantissa() == 0,
            price.scale() == 0,
    {
        Price { mantissa: 0, scale: 0 }
    }

    /// The digits of the price as a signed integer.
    #[verifier::when_used_as_spec(spec_mantissa)]
    pub fn mantissa(&self) -> (m: i128)
        ensures
            m == self.mantissa(),
            Self::representable(m, self.scale()),
    {
        proof {
            use_type_invariant(self);
        }
        self.mantissa
    }

    /// The number of the price's digits that stand behind the decimal point.
    #[verifier::when_used_as_spec(spec_scale)]
    pub fn scale(&self) -> (s: u32)
        ensures
            s == self.scale(),
            Self::representable(self.mantissa(), s),
    {
        proof {
            use_type_invariant(self);
        }
        self.scale
    }

    /// Whether the price is exactly zero, whatever its scale.
    pub open spec fn is_zero_value(self) -> bool {
        self.mantissa() == 0
    }

    /// Whether the price is exactly zero.
    pub fn is_zero(&self) -> (zero: bool)
        ensures
            zero == self.is_zero_value(),
    {
        self.mantissa == 0
    }

    /// The mantissa and the scale of the price.
    pub open spec fn parts(self) -> (int, nat) {
        (self.mantissa() as int, self.scale() as nat)
    }

    /// The same number without trailing zeros behind the decimal point.
    pub fn normalize(&self) -> (normal: Price)
        ensures
            normal.parts() == strip_zeros(self.mantissa() as int, self.scale() as nat),
    {
        proof {
            use_type_invariant(self);
        }
        decimal_normalize(*self)
    }

    /// The product of two prices, or nothing where it overflows.
    pub fn checked_mul(&self, by: &Price) -> (product: Option<Price>)
        ensures
            parts_of(product) == decimal_product(
                self.mantissa() as int,
                self.scale() as nat,
                by.mantissa() as int,
                by.scale() as nat,
            ),
    {
        proof {
            use_type_invariant(self);
            use_type_invariant(by);
        }
        decimal_checked_mul(*self, *by)
    }

    /// The digits of the price with its decimal point.
    pub fn to_text(&self) -> (text: String)
        ensures
            text@ == decimal_text(self.mantissa() as int, self.scale() as nat),
    {
        proof {
            use_type_invariant(self);
        }
        decimal_to_string(*self)
    }

    /// The price's mantissa brought to the scale it shares with `other`: two
    /// prices compare as their cross products do.
    pub open spec fn cross(self, other: Price) -> int {
        self.mantissa() * pow10(other.scale() as nat)
    }

    /// `self <= other` as numbers.
    pub open spec fn at_most(self, other: Price) -> bool {
        self.cross(other) <= other.cross(self)
    }

    /// How `self` stands to `other` as a number.
    pub open spec fn ordering(self, other: Price) -> Ordering {
        if self.cross(other) < other.cross(self) {
            Ordering::Less
        } else if self.cross(other) == other.cross(self) {
            Ordering::Equal
        } else {
            Ordering::Greater
        }
    }

    /// Compares two prices as numbers: `1.50` equals `1.5`.
    pub fn compare(&self, other: &Price) -> (o: Ordering)
        ensures
            o == self.ordering(*other),
    {
        proof {
            use_type_invariant(self);
            use_type_invariant(other);
        }
        decimal_compare(*self, *other)
    }

    /// A chain of prices in ascending order is in ascending order from end
    /// to end, and a chain that ends in a tie is made of ties.
    pub proof fn lemma_chain(a: Price, b: Price, c: Price)
        requires
            a.ordering(b) != Ordering::Greater,
            b.ordering(c) != Ordering::Greater,
        ensures
            a.ordering(c) != Ordering::Greater,
            a.ordering(c) == Ordering::Equal ==> a.ordering(b) == Ordering::Equal && b.ordering(c)
                == Ordering::Equal,
    {
        Self::lemma_at_most_transitive(a, b, c);
        if a.ordering(c) == Ordering::Equal {
            Self::lemma_at_most_transitive(c, a, b);
            Self::lemma_at_most_transitive(b, c, a);
        }
    }

    /// Any two prices are comparable.
    pub proof fn lemma_at_most_total(a: Price, b: Price)
        ensures
            a.at_most(b) || b.at_most(a),
    {
    }

    /// The order of prices is transitive.
    pub proof fn lemma_at_most_transitive(a: Price, b: Price, c: Price)
        requires
            a.at_most(b),
            b.at_most(c),
        ensures
            a.at_most(c),
    {
        let pa = pow10(a.scale() as nat);
        let pb = pow10(b.scale() as nat);
        let pc = pow10(c.scale() as nat);
        lemma_pow10_positive(a.scale() as nat);
        lemma_pow10_positive(b.scale() as nat);
        lemma_pow10_positive(c.scale() as nat);
        let ma = a.mantissa() as int;
        let mb = b.mantissa() as int;
        let mc = c.mantissa() as int;
        assert(ma * pc <= mc * pa) by (nonlinear_arith)
            requires
                ma * pb <= mb * pa,
                mb * pc <= mc * pb,
                pa > 0,
                pb > 0,
                pc > 0,
        {
            assert(ma * pb * pc <= mb * pa * pc);
            assert(mb * pc * pa <= mc * pb * pa);
            assert(mb * pa * pc == mb * pc * pa);
            assert(ma * pc * pb <= mc * pa * pb);
        }
    }
}

/// `Decimal::cmp` orders two decimals by their numeric value, whatever their
/// scales. `Decimal::from_i128_with_scale` builds each operand; it accepts
/// every mantissa of at most 96 bits with a scale of at most 28.
#[verifier::external_body]
fn decimal_compare(a: Price, b: Price) -> (o: Ordering)
    requires
        a.in_range(),
        b.in_range(),
    ensures
        o == a.ordering(b),
{
    let x = Decimal::from_i128_with_scale(a.mantissa, a.scale);
    let y = Decimal::from_i128_with_scale(b.mantissa, b.scale);
    x.cmp(&y)
}

/// The mantissa and the scale of a price that may be missing.
pub open spec fn parts_of(price: Option<Price>) -> Option<(int, nat)> {
    match price {
        Some(p) => Some(p.parts()),
        None => None,
    }
}

/// `Decimal::normalize` strips the trailing zeros behind the decimal point
/// and turns every zero into the plain zero.
#[verifier::external_body]
fn decimal_normalize(a: Price) -> (normal: Price)
    requires
        a.in_range(),
    ensures
        normal.in_range(),
        normal.parts() == strip_zeros(a.mantissa as int, a.scale as nat),
{
    let d = Decimal::from_i128_with_scale(a.mantissa, a.scale).normalize();
    Price { mantissa: d.mantissa(), scale: d.scale() }
}

/// `Decimal::checked_mul` multiplies two decimals and returns nothing where
/// the product overflows.
#[verifier::external_body]
fn decimal_checked_mul(a: Price, b: Price) -> (product: Option<Price>)
    requires
        a.in_range(),
        b.in_range(),
    ensures
        product matches Some(p) ==> p.in_range(),
        parts_of(product) == decimal_product(
            a.mantissa as int,
            a.scale as nat,
            b.mantissa as int,
            b.scale as nat,
        ),
{
    let x = Decimal::from_i128_with_scale(a.mantissa, a.scale);
    let y = Decimal::from_i128_with_scale(b.mantissa, b.scale);
    match x.checked_mul(y) {
        Some(d) => Some(Price { mantissa: d.mantissa(), scale: d.scale() }),
        None => None,
    }
}

/// The `Display` of `Decimal`, through `to_string`: the text of a decimal is
/// a function of its mantissa and its scale.
#[verifier::external_body]
fn decimal_to_string(a: Price) -> (text: String)
    requires
        a.in_range(),
    ensures
        text@ == decimal_text(a.mantissa as int, a.scale as nat),
{
    Decimal::from_i128_with_scale(a.mantissa, a.scale).to_string()
}

/// What a model charges, per unit of each kind of use.
#[derive(Debug, Clone, Copy)]
pub struct Pricing {
    pub prompt: Price,
    pub completion: Price,
    pub image: Price,
    pub request: Price,
    pub web_search: Price,
    pub internal_reasoning: Price,
    pub input_cache_read: Price,
    pub input_cache_write: Price,
}

impl Pricing {
    /// All eight prices are exactly zero.
    pub open spec fn is_free(self) -> bool {
        &&& self.prompt.is_zero_value()
        &&& self.completion.is_zero_value()
        &&& self.image.is_zero_value()
        &&& self.request.is_zero_value()
        &&& self.web_search.is_zero_value()
        &&& self.internal_reasoning.is_zero_value()
        &&& self.input_cache_read.is_zero_value()
        &&& self.input_cache_write.is_zero_value()
    }

    /// Whether the pricing is empty: all eight prices are exactly zero.
    pub fn is_empty(&self) -> (empty: bool)
        ensures
            empty == self.is_free(),
    {
        self.prompt.is_zero() && self.completion.is_zero() && self.image.is_zero()
            && self.request.is_zero() && self.web_search.is_zero()
            && self.internal_reasoning.is_zero() && self.input_cache_read.is_zero()
            && self.input_cache_write.is_zero()
    }
}

} // verus!
