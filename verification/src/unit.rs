//! The dimensional unit system.
//!
//! A [`BaseUnit`] is an atomic physical dimension identified solely by
//! its name; a [`NamedUnit`] is a labeled unit defined as a scale
//! factor times a product of base-unit powers; a [`Unit`] is an ordered
//! product of named-unit powers, kept unsimplified — `m·s` and `s·m`
//! are distinct units with the same dimensional meaning, and no
//! cancellation is performed; and a [`UnitValue`] pairs an exact scalar
//! with a unit.
//!
//! Canonicalization maps a unit to its canonical base-unit exponent
//! map, represented here pointwise: [`Unit::canonical_exponent`] gives
//! the accumulated exponent of one base unit, with the first occurrence
//! and every later one folded by the same multiply-and-add formula, so
//! a base unit that appears once is scaled exactly like one that
//! appears many times.  A base unit whose accumulated exponent is zero
//! counts as absent: compatibility compares accumulated exponents as
//! exact rationals, and an absent dimension has exponent zero.

use vstd::prelude::*;

use crate::error::CalcError;
use crate::error::IntErr;
use crate::exact::cx_add;
use crate::exact::cx_div;
use crate::exact::cx_is_zero;
use crate::exact::cx_mul;
use crate::exact::cx_of;
use crate::exact::cx_pow;
use crate::exact::Base;
use crate::exact::BaseV;
use crate::exact::CxV;
use crate::exact::ExactV;
use crate::exact::ExactValue;
use crate::interrupt::Interrupt;
use crate::rational::rat_add;
use crate::rational::rat_div;
use crate::rational::rat_eq;
use crate::rational::rat_is_zero;
use crate::rational::rat_lt;
use crate::rational::rat_mul;
use crate::rational::rat_neg;
use crate::rational::rat_of_int;
use crate::rational::rat_sub;
use crate::rational::rat_pow_int;
use crate::rational::rat_wf;
use crate::rational::Rat;
use crate::rational::Rational;

verus! {

use vstd::string::StringExecFns;

/// A base unit: an atomic physical dimension, identified solely by its
/// name.  Two base units are the same dimension exactly when their
/// names match.
#[derive(Clone, Debug)]
pub struct BaseUnit {
    name: String,
}

impl View for BaseUnit {
    type V = Seq<char>;

    closed spec fn view(&self) -> Seq<char> {
        self.name@
    }
}

impl BaseUnit {
    /// A base unit of the given name.
    pub fn new(name: &str) -> (r: Self)
        ensures
            r@ == name@,
    {
        BaseUnit { name: name.to_owned() }
    }

    /// An identical copy.
    pub fn duplicate(&self) -> (r: Self)
        ensures
            r@ == self@,
    {
        BaseUnit { name: self.name.clone() }
    }

    /// Whether the two base units are the same dimension: their names
    /// match.
    pub fn same_dimension(&self, other: &Self) -> (r: bool)
        ensures
            r == (self@ == other@),
    {
        self.name == other.name
    }
}

/// Model of a (thing, exponent) pair.
pub ghost struct UnitExpV<TV> {
    pub unit: TV,
    pub exp: ExactV,
}

/// A generic (thing, exponent) pair: the thing is a named unit or a
/// base unit, and the exponent is itself an exact value, so that
/// fractional and negative powers can be carried.
#[derive(Clone, Debug)]
pub struct UnitExponent<T> {
    unit: T,
    exponent: ExactValue,
}

impl<T: View> View for UnitExponent<T> {
    type V = UnitExpV<T::V>;

    closed spec fn view(&self) -> UnitExpV<T::V> {
        UnitExpV { unit: self.unit@, exp: self.exponent@ }
    }
}

impl<T: View> UnitExponent<T> {
    /// The pair of a unit and an integer exponent, normalized into an
    /// exact value.
    pub fn new(unit: T, exponent: i64) -> (r: Self)
        ensures
            r@.unit == unit@,
            r@.exp == (ExactV {
                re: rat_of_int(exponent as int),
                im: rat_of_int(0),
                approx: false,
                base: BaseV { radix: 10, prefixed: false },
                frac_places: 0,
            }),
    {
        UnitExponent { unit, exponent: ExactValue::from_i64(exponent) }
    }
}

/// Model of a named unit.
pub ghost struct NamedUnitV {
    pub singular: Seq<char>,
    pub plural: Seq<char>,
    pub spacing: bool,
    pub bases: Seq<UnitExpV<Seq<char>>>,
    pub scale: ExactV,
}

/// A named unit, like kilogram or percent: display names, a spacing
/// flag (false for units such as `%` that attach without a preceding
/// space), a decomposition into base-unit powers, and a scale factor —
/// the quantity of this named unit expressed in one unit of its
/// base-unit decomposition.
#[derive(Clone, Debug)]
pub struct NamedUnit {
    singular_name: String,
    plural_name: String,
    spacing: bool,
    base_units: Vec<UnitExponent<BaseUnit>>,
    scale: ExactValue,
}

impl View for NamedUnit {
    type V = NamedUnitV;

    closed spec fn view(&self) -> NamedUnitV {
        NamedUnitV {
            singular: self.singular_name@,
            plural: self.plural_name@,
            spacing: self.spacing,
            bases: self.base_units@.map_values(|b: UnitExponent<BaseUnit>| b@),
            scale: self.scale@,
        }
    }
}

/// Well-formedness of one base-unit power inside a decomposition: the
/// exponent is a real rational.
pub open spec fn base_exp_wf(b: UnitExpV<Seq<char>>) -> bool {
    rat_wf(b.exp.re) && rat_wf(b.exp.im) && rat_is_zero(b.exp.im)
}

/// Well-formedness of a named-unit model: real positive exact scale and
/// well-formed base-unit powers.
pub open spec fn named_unit_wf(n: NamedUnitV) -> bool {
    &&& rat_wf(n.scale.re)
    &&& rat_wf(n.scale.im)
    &&& rat_is_zero(n.scale.im)
    &&& !n.scale.approx
    &&& n.scale.re.n != 0
    &&& forall|j: int| 0 <= j < n.bases.len() ==> base_exp_wf(#[trigger] n.bases[j])
}

impl NamedUnit {
    /// A named unit from its display names, spacing flag, base-unit
    /// decomposition and scale.  The scale must be an exact positive
    /// real.
    pub fn new(
        singular_name: &str,
        plural_name: &str,
        spacing: bool,
        base_units: Vec<UnitExponent<BaseUnit>>,
        scale: ExactValue,
    ) -> (r: Self)
        requires
            rat_wf(scale@.re),
            rat_wf(scale@.im),
            rat_is_zero(scale@.im),
            !scale@.approx,
            scale@.re.n != 0,
            forall|j: int| 0 <= j < base_units@.len() ==> base_exp_wf(
                (#[trigger] base_units@[j])@,
            ),
        ensures
            named_unit_wf(r@),
            r@.singular == singular_name@,
            r@.plural == plural_name@,
            r@.spacing == spacing,
            r@.bases == base_units@.map_values(|b: UnitExponent<BaseUnit>| b@),
            r@.scale == scale@,
    {
        let r = NamedUnit {
            singular_name: singular_name.to_owned(),
            plural_name: plural_name.to_owned(),
            spacing,
            base_units,
            scale,
        };
        proof {
            assert forall|j: int| 0 <= j < r@.bases.len() implies base_exp_wf(
                #[trigger] r@.bases[j],
            ) by {
                assert(r@.bases[j] == r.base_units@[j]@);
            }
        }
        r
    }

    /// An identical copy.
    pub fn duplicate(&self) -> (r: Self)
        ensures
            r@ == self@,
    {
        let mut bases: Vec<UnitExponent<BaseUnit>> = Vec::new();
        let mut j: usize = 0;
        while j < self.base_units.len()
            invariant
                j <= self.base_units@.len(),
                bases@.len() == j,
                forall|j2: int| 0 <= j2 < j ==> (#[trigger] bases@[j2])@
                    == self.base_units@.index(j2)@,
            decreases self.base_units@.len() - j,
        {
            let b = &self.base_units[j];
            bases.push(UnitExponent { unit: b.unit.duplicate(), exponent: b.exponent });
            j = j + 1;
        }
        let r = NamedUnit {
            singular_name: self.singular_name.clone(),
            plural_name: self.plural_name.clone(),
            spacing: self.spacing,
            base_units: bases,
            scale: self.scale,
        };
        proof {
            assert(r@.bases =~= self@.bases);
        }
        r
    }
}

/// The accumulated exponent of base unit `name` inside one base-unit
/// decomposition.
pub open spec fn bases_exp(bases: Seq<UnitExpV<Seq<char>>>, name: Seq<char>) -> Rat
    decreases bases.len(),
{
    if bases.len() == 0 {
        rat_of_int(0)
    } else {
        rat_add(
            bases_exp(bases.drop_last(), name),
            if bases.last().unit == name {
                bases.last().exp.re
            } else {
                rat_of_int(0)
            },
        )
    }
}

/// The canonical accumulated exponent of base unit `name` over a whole
/// unit: for each component, the component exponent times the base
/// unit's accumulated exponent in its decomposition — the same formula
/// for the first occurrence and every later one.
pub open spec fn dim_exp(comps: Seq<UnitExpV<NamedUnitV>>, name: Seq<char>) -> Rat
    decreases comps.len(),
{
    if comps.len() == 0 {
        rat_of_int(0)
    } else {
        rat_add(
            dim_exp(comps.drop_last(), name),
            rat_mul(comps.last().exp.re, bases_exp(comps.last().unit.bases, name)),
        )
    }
}

/// Dimensional compatibility: every base unit has the same canonical
/// accumulated exponent in both units, compared as exact rationals, so
/// a zero accumulated exponent and an absent base unit agree.
pub open spec fn dims_match(a: Seq<UnitExpV<NamedUnitV>>, b: Seq<UnitExpV<NamedUnitV>>) -> bool {
    forall|name: Seq<char>| rat_eq(#[trigger] dim_exp(a, name), dim_exp(b, name))
}

/// The component exponent of one named-unit power, as an integer.
pub open spec fn comp_exp_int(c: UnitExpV<NamedUnitV>) -> int {
    c.exp.re.n
}

/// The aggregate scale factor of a unit: the product over its
/// components of the named unit's scale raised to the component
/// exponent.
pub open spec fn scale_of(comps: Seq<UnitExpV<NamedUnitV>>) -> Rat
    decreases comps.len(),
{
    if comps.len() == 0 {
        rat_of_int(1)
    } else {
        rat_mul(
            scale_of(comps.drop_last()),
            rat_pow_int(comps.last().unit.scale.re, comp_exp_int(comps.last())),
        )
    }
}

/// Well-formedness of one named-unit power: a well-formed named unit
/// and an integer-valued real exponent.
pub open spec fn comp_wf(c: UnitExpV<NamedUnitV>) -> bool {
    &&& named_unit_wf(c.unit)
    &&& crate::exact::exact_value_wf(c.exp)
    &&& rat_is_zero(c.exp.im)
    &&& c.exp.re.d == 1
}

/// Well-formedness of a unit: every component is well-formed.
pub open spec fn unit_wf(comps: Seq<UnitExpV<NamedUnitV>>) -> bool {
    forall|i: int| 0 <= i < comps.len() ==> comp_wf(#[trigger] comps[i])
}

/// Whether a unit mentions base unit `name` anywhere in a
/// decomposition.
pub open spec fn mentions(comps: Seq<UnitExpV<NamedUnitV>>, name: Seq<char>) -> bool {
    exists|i: int, j: int|
        0 <= i < comps.len() && 0 <= j < comps[i].unit.bases.len() && (#[trigger] comps[i].unit
            .bases[j]).unit == name
}

/// Adding the zero rational is the identity, even on the
/// representation.
proof fn lemma_rat_add_zero(a: Rat)
    ensures
        rat_add(a, rat_of_int(0)) == a,
{
    assert(a.n * 1 == a.n && 0 * a.d == 0 && a.d * 1 == a.d) by (nonlinear_arith);
}

/// A base unit that a unit never mentions has canonical accumulated
/// exponent zero.
proof fn lemma_dim_exp_absent(comps: Seq<UnitExpV<NamedUnitV>>, name: Seq<char>)
    requires
        !mentions(comps, name),
    ensures
        dim_exp(comps, name).n == 0,
    decreases comps.len(),
{
    if comps.len() > 0 {
        let prefix = comps.drop_last();
        assert(!mentions(prefix, name)) by {
            if mentions(prefix, name) {
                let (i, j) = choose|i: int, j: int|
                    0 <= i < prefix.len() && 0 <= j < prefix[i].unit.bases.len() && (
                    #[trigger] prefix[i].unit.bases[j]).unit == name;
                assert(comps[i].unit.bases[j].unit == name);
            }
        }
        lemma_dim_exp_absent(prefix, name);
        let bases = comps.last().unit.bases;
        assert(bases_exp(bases, name).n == 0) by {
            assert(bases =~= comps[comps.len() - 1].unit.bases.subrange(0, bases.len() as int));
            lemma_bases_exp_absent(bases, name, comps, comps.len() - 1);
        }
        let part_term = rat_mul(comps.last().exp.re, bases_exp(bases, name));
        assert(part_term.n == 0) by (nonlinear_arith)
            requires
                bases_exp(bases, name).n == 0,
                part_term.n == comps.last().exp.re.n * bases_exp(bases, name).n,
        ;
        assert(dim_exp(comps, name).n == dim_exp(prefix, name).n * part_term.d + part_term.n * dim_exp(
            prefix,
            name,
        ).d);
        assert(0 * part_term.d == 0 && 0 * dim_exp(prefix, name).d == 0) by (nonlinear_arith);
    }
}

/// A decomposition with no entry for `name` contributes exponent zero,
/// where the absence comes from the enclosing unit not mentioning the
/// base unit in component `i`.
proof fn lemma_bases_exp_absent(
    bases: Seq<UnitExpV<Seq<char>>>,
    name: Seq<char>,
    comps: Seq<UnitExpV<NamedUnitV>>,
    i: int,
)
    requires
        0 <= i < comps.len(),
        bases.len() <= comps[i].unit.bases.len(),
        bases == comps[i].unit.bases.subrange(0, bases.len() as int),
        !mentions(comps, name),
    ensures
        bases_exp(bases, name).n == 0,
    decreases bases.len(),
{
    if bases.len() > 0 {
        let prefix = bases.drop_last();
        assert(prefix =~= comps[i].unit.bases.subrange(0, prefix.len() as int));
        lemma_bases_exp_absent(prefix, name, comps, i);
        assert(bases.last() == comps[i].unit.bases[bases.len() - 1]);
        assert(bases.last().unit != name) by {
            if bases.last().unit == name {
                assert((comps[i].unit.bases[bases.len() - 1]).unit == name);
            }
        }
        let z = rat_of_int(0);
        assert(bases_exp(bases, name) == rat_add(bases_exp(prefix, name), z));
        assert(bases_exp(prefix, name).n * z.d + z.n * bases_exp(prefix, name).d == 0)
            by (nonlinear_arith)
            requires
                bases_exp(prefix, name).n == 0,
                z.n == 0,
                z.d == 1,
        ;
    }
}

/// The aggregate scale of a well-formed unit is a well-formed nonzero
/// rational.
proof fn lemma_scale_of_nonzero(comps: Seq<UnitExpV<NamedUnitV>>)
    requires
        unit_wf(comps),
    ensures
        rat_wf(scale_of(comps)),
        scale_of(comps).n != 0,
    decreases comps.len(),
{
    if comps.len() == 0 {
    } else {
        let prefix = comps.drop_last();
        assert(unit_wf(prefix)) by {
            assert forall|i: int| 0 <= i < prefix.len() implies comp_wf(#[trigger] prefix[i]) by {
                assert(prefix[i] == comps[i]);
            }
        }
        lemma_scale_of_nonzero(prefix);
        assert(comp_wf(comps.last())) by {
            assert(comps[comps.len() - 1] == comps.last());
        }
        let pw = rat_pow_int(comps.last().unit.scale.re, comp_exp_int(comps.last()));
        crate::rational::lemma_rat_pow_int_nonzero(
            comps.last().unit.scale.re,
            comp_exp_int(comps.last()),
        );
        assert(scale_of(prefix).n * pw.n != 0 && scale_of(prefix).d * pw.d > 0)
            by (nonlinear_arith)
            requires
                scale_of(prefix).n != 0,
                scale_of(prefix).d > 0,
                pw.n != 0,
                pw.d > 0,
        ;
    }
}

/// A small named-unit power: an exponent of magnitude at most one, at
/// most two base-unit entries with small integer exponents, and a
/// modestly sized scale.  Within this class every canonicalization and
/// conversion step stays far inside the machine words, so success is
/// owed.
pub open spec fn comp_small(c: UnitExpV<NamedUnitV>) -> bool {
    &&& -1 <= c.exp.re.n <= 1
    &&& c.unit.bases.len() <= 2
    &&& forall|j: int|
        0 <= j < c.unit.bases.len() ==> ((#[trigger] c.unit.bases[j]).exp.re.d == 1 && -8
            <= c.unit.bases[j].exp.re.n <= 8)
    &&& crate::rational::rat_bounded(c.unit.scale.re, 0x400)
}

/// A small unit: at most one small component.
pub open spec fn unit_small(comps: Seq<UnitExpV<NamedUnitV>>) -> bool {
    &&& comps.len() <= 1
    &&& forall|i: int| 0 <= i < comps.len() ==> comp_small(#[trigger] comps[i])
}

/// The model components of an executable component list.
pub open spec fn comps_view(s: Seq<UnitExponent<NamedUnit>>) -> Seq<UnitExpV<NamedUnitV>> {
    s.map_values(|c: UnitExponent<NamedUnit>| c@)
}

/// The model of a pushed component is the pushed model.
proof fn lemma_comps_view_push(s: Seq<UnitExponent<NamedUnit>>, x: UnitExponent<NamedUnit>)
    ensures
        comps_view(s.push(x)) =~= comps_view(s).push(x@),
{
}

/// The model of concatenated components is the concatenation of the
/// models.
proof fn lemma_comps_view_concat(a: Seq<UnitExponent<NamedUnit>>, b: Seq<UnitExponent<NamedUnit>>)
    ensures
        comps_view(a + b) =~= comps_view(a) + comps_view(b),
{
}

/// An ordered product of named-unit powers.  The order affects only
/// display, never the dimensional meaning, and no simplification is
/// ever applied.
#[derive(Clone, Debug)]
pub struct Unit {
    components: Vec<UnitExponent<NamedUnit>>,
}

impl View for Unit {
    type V = Seq<UnitExpV<NamedUnitV>>;

    closed spec fn view(&self) -> Seq<UnitExpV<NamedUnitV>> {
        comps_view(self.components@)
    }
}

impl Unit {
    /// The representation invariant: every component is well-formed.
    pub open spec fn wf(&self) -> bool {
        unit_wf(self@)
    }

    /// The unit of dimensionless quantities: no components.
    pub fn unitless() -> (r: Self)
        ensures
            r.wf(),
            r@.len() == 0,
    {
        let r = Unit { components: Vec::new() };
        proof {
            assert(r@ =~= Seq::<UnitExpV<NamedUnitV>>::empty());
        }
        r
    }

    /// A unit over the given components.
    pub fn from_components(components: Vec<UnitExponent<NamedUnit>>) -> (r: Self)
        requires
            unit_wf(comps_view(components@)),
        ensures
            r.wf(),
            r@ == comps_view(components@),
    {
        Unit { components }
    }

    /// The canonical accumulated exponent of one base unit over the
    /// whole unit.
    fn canonical_exponent(&self, name: &BaseUnit) -> (r: Result<Rational, CalcError>)
        requires
            self.wf(),
        ensures
            match r {
                Ok(v) => v.wf() && v@ == dim_exp(self@, name@),
                Err(e) => e == CalcError::NumericLimitExceeded,
            },
            unit_small(self@) ==> (r is Ok && dim_exp(self@, name@).d == 1 && -0x40 <= dim_exp(
                self@,
                name@,
            ).n <= 0x40),
    {
        let ghost small = unit_small(self@);
        let mut acc = Rational::from_i64(0);
        proof {
            assert(self@.subrange(0, 0) =~= Seq::<UnitExpV<NamedUnitV>>::empty());
        }
        let mut i: usize = 0;
        while i < self.components.len()
            invariant
                self.wf(),
                i <= self.components@.len(),
                self@.len() == self.components@.len(),
                acc.wf(),
                acc@ == dim_exp(self@.subrange(0, i as int), name@),
                small == unit_small(self@),
                small ==> acc@.d == 1 && -0x40 <= acc@.n <= 0x40,
            decreases self.components@.len() - i,
        {
            let comp = &self.components[i];
            proof {
                assert(comp@ == self@[i as int]);
                assert(comp_wf(self@[i as int]));
                if small {
                    assert(comp_small(self@[i as int]));
                    assert(acc@ == rat_of_int(0)) by {
                        assert(i == 0);
                        assert(self@.subrange(0, 0) =~= Seq::<UnitExpV<NamedUnitV>>::empty());
                    }
                }
            }
            let mut bsum = Rational::from_i64(0);
            proof {
                assert(comp@.unit.bases.subrange(0, 0) =~= Seq::<UnitExpV<Seq<char>>>::empty());
            }
            let mut j: usize = 0;
            while j < comp.unit.base_units.len()
                invariant
                    j <= comp.unit.base_units@.len(),
                    comp@.unit.bases.len() == comp.unit.base_units@.len(),
                    comp_wf(comp@),
                    bsum.wf(),
                    bsum@ == bases_exp(comp@.unit.bases.subrange(0, j as int), name@),
                    small == unit_small(self@),
                    small ==> comp_small(comp@),
                    small ==> bsum@.d == 1 && -8 * (j as int) <= bsum@.n <= 8 * (j as int),
                decreases comp.unit.base_units@.len() - j,
            {
                let entry = &comp.unit.base_units[j];
                proof {
                    assert(entry@ == comp@.unit.bases[j as int]);
                    assert(base_exp_wf(comp@.unit.bases[j as int]));
                    assert(comp@.unit.bases.subrange(0, j + 1).drop_last() =~= comp@.unit.bases.subrange(
                        0,
                        j as int,
                    ));
                    assert(comp@.unit.bases.subrange(0, j + 1).last() == comp@.unit.bases[j as int]);
                }
                if entry.unit.same_dimension(name) {
                    proof {
                        if small {
                            assert(crate::rational::rat_fits(
                                crate::rational::rat_add(bsum@, comp@.unit.bases[j as int].exp.re),
                            ) && crate::rational::rat_add(
                                bsum@,
                                comp@.unit.bases[j as int].exp.re,
                            ).d == 1) by (nonlinear_arith)
                                requires
                                    bsum@.d == 1,
                                    -16 <= bsum@.n <= 16,
                                    comp@.unit.bases[j as int].exp.re.d == 1,
                                    -8 <= comp@.unit.bases[j as int].exp.re.n <= 8,
                            ;
                        }
                    }
                    bsum = match bsum.add(&entry.exponent.real_rational()) {
                        Some(v) => v,
                        None => {
                            return Err(CalcError::NumericLimitExceeded);
                        },
                    };
                } else {
                    proof {
                        lemma_rat_add_zero(bsum@);
                    }
                }
                j = j + 1;
            }
            proof {
                assert(comp@.unit.bases.subrange(0, comp@.unit.bases.len() as int) =~= comp@.unit.bases);
            }
            proof {
                if small {
                    assert(crate::rational::rat_fits(
                        crate::rational::rat_mul(comp@.exp.re, bsum@),
                    ) && crate::rational::rat_mul(comp@.exp.re, bsum@).d == 1 && -16
                        <= crate::rational::rat_mul(comp@.exp.re, bsum@).n <= 16)
                        by (nonlinear_arith)
                        requires
                            comp@.exp.re.d == 1,
                            -1 <= comp@.exp.re.n <= 1,
                            bsum@.d == 1,
                            -16 <= bsum@.n <= 16,
                    ;
                }
            }
            let term = match comp.exponent.real_rational().mul(&bsum) {
                Some(v) => v,
                None => {
                    return Err(CalcError::NumericLimitExceeded);
                },
            };
            proof {
                if small {
                    assert(crate::rational::rat_fits(crate::rational::rat_add(acc@, term@))
                        && crate::rational::rat_add(acc@, term@).d == 1 && -0x40
                        <= crate::rational::rat_add(acc@, term@).n <= 0x40) by (nonlinear_arith)
                        requires
                            acc@.d == 1,
                            acc@.n == 0,
                            term@.d == 1,
                            -16 <= term@.n <= 16,
                    ;
                }
            }
            acc = match acc.add(&term) {
                Some(v) => v,
                None => {
                    return Err(CalcError::NumericLimitExceeded);
                },
            };
            i = i + 1;
            proof {
                assert(self@.subrange(0, i as int).drop_last() =~= self@.subrange(0, i - 1));
                assert(self@.subrange(0, i as int).last() == self@[i - 1]);
            }
        }
        proof {
            assert(self@.subrange(0, self@.len() as int) =~= self@);
        }
        Ok(acc)
    }

    /// Checks that every base unit mentioned in `list` has matching
    /// canonical exponents in `from` and `into`.
    fn covers(list: &Unit, from: &Unit, into: &Unit) -> (r: Result<bool, CalcError>)
        requires
            list.wf(),
            from.wf(),
            into.wf(),
        ensures
            match r {
                Ok(true) => forall|i: int, j: int|
                    0 <= i < list@.len() && 0 <= j < list@[i].unit.bases.len() ==> rat_eq(
                        dim_exp(from@, (#[trigger] list@[i].unit.bases[j]).unit),
                        dim_exp(into@, list@[i].unit.bases[j].unit),
                    ),
                Ok(false) => !dims_match(from@, into@),
                Err(e) => e == CalcError::NumericLimitExceeded,
            },
            unit_small(from@) && unit_small(into@) ==> !(r is Err),
    {
        let mut i: usize = 0;
        while i < list.components.len()
            invariant
                list.wf(),
                from.wf(),
                into.wf(),
                i <= list.components@.len(),
                list@.len() == list.components@.len(),
                forall|i2: int, j2: int|
                    0 <= i2 < i && 0 <= j2 < list@[i2].unit.bases.len() ==> rat_eq(
                        dim_exp(from@, (#[trigger] list@[i2].unit.bases[j2]).unit),
                        dim_exp(into@, list@[i2].unit.bases[j2].unit),
                    ),
            decreases list.components@.len() - i,
        {
            let comp = &list.components[i];
            proof {
                assert(comp@ == list@[i as int]);
            }
            let mut j: usize = 0;
            while j < comp.unit.base_units.len()
                invariant
                    from.wf(),
                    into.wf(),
                    j <= comp.unit.base_units@.len(),
                    comp@.unit.bases.len() == comp.unit.base_units@.len(),
                    forall|j2: int|
                        0 <= j2 < j ==> rat_eq(
                            dim_exp(from@, (#[trigger] comp@.unit.bases[j2]).unit),
                            dim_exp(into@, comp@.unit.bases[j2].unit),
                        ),
                decreases comp.unit.base_units@.len() - j,
            {
                let entry = &comp.unit.base_units[j];
                proof {
                    assert(entry@ == comp@.unit.bases[j as int]);
                }
                let ta = match from.canonical_exponent(&entry.unit) {
                    Ok(v) => v,
                    Err(e) => {
                        return Err(e);
                    },
                };
                let tb = match into.canonical_exponent(&entry.unit) {
                    Ok(v) => v,
                    Err(e) => {
                        return Err(e);
                    },
                };
                if !ta.eq_rat(&tb) {
                    proof {
                        assert(!rat_eq(
                            dim_exp(from@, comp@.unit.bases[j as int].unit),
                            dim_exp(into@, comp@.unit.bases[j as int].unit),
                        ));
                    }
                    return Ok(false);
                }
                j = j + 1;
            }
            i = i + 1;
            proof {
                assert forall|i2: int, j2: int|
                    0 <= i2 < i && 0 <= j2 < list@[i2].unit.bases.len() implies rat_eq(
                    dim_exp(from@, (#[trigger] list@[i2].unit.bases[j2]).unit),
                    dim_exp(into@, list@[i2].unit.bases[j2].unit),
                ) by {
                    if i2 == i - 1 {
                        assert(list@[i2].unit.bases[j2] == comp@.unit.bases[j2]);
                    }
                }
            }
        }
        Ok(true)
    }

    /// The aggregate scale factor of the unit.
    fn aggregate_scale(&self) -> (r: Result<Rational, CalcError>)
        requires
            self.wf(),
        ensures
            match r {
                Ok(v) => v.wf() && v@ == scale_of(self@),
                Err(e) => e == CalcError::NumericLimitExceeded,
            },
            unit_small(self@) ==> (r is Ok && crate::rational::rat_bounded(
                scale_of(self@),
                0x800,
            )),
    {
        let ghost small = unit_small(self@);
        let mut acc = Rational::from_i64(1);
        proof {
            assert(self@.subrange(0, 0) =~= Seq::<UnitExpV<NamedUnitV>>::empty());
        }
        let mut i: usize = 0;
        while i < self.components.len()
            invariant
                self.wf(),
                i <= self.components@.len(),
                self@.len() == self.components@.len(),
                acc.wf(),
                acc@ == scale_of(self@.subrange(0, i as int)),
                small == unit_small(self@),
                small ==> crate::rational::rat_bounded(acc@, 0x800),
                small && i == 0 ==> acc@ == rat_of_int(1),
            decreases self.components@.len() - i,
        {
            let comp = &self.components[i];
            proof {
                assert(comp@ == self@[i as int]);
                assert(comp_wf(self@[i as int]));
                if small {
                    assert(comp_small(self@[i as int]));
                }
            }
            let k: i64 = match comp.exponent.real_rational().as_integer() {
                Some(k) => k,
                None => {
                    proof {
                        assert(comp@.exp.re.n * comp@.exp.re.d == comp@.exp.re.n)
                            by (nonlinear_arith)
                            requires
                                comp@.exp.re.d == 1,
                        ;
                        assert(false);
                    }
                    return Err(CalcError::NumericLimitExceeded);
                },
            };
            if k > 1000000 || k < -1000000 {
                return Err(CalcError::NumericLimitExceeded);
            }
            proof {
                assert((k as int) * 1 == k as int) by (nonlinear_arith);
                assert(k as int == comp@.exp.re.n);
            }
            let pw = match comp.unit.scale.real_rational().pow_int(k) {
                Some(v) => v,
                None => {
                    return Err(CalcError::NumericLimitExceeded);
                },
            };
            proof {
                if small {
                    let sc = comp@.unit.scale.re;
                    assert(-1 <= k as int <= 1);
                    if k == 1 {
                        assert(crate::rational::pow_nat(sc.n, 1) == sc.n * crate::rational::pow_nat(
                            sc.n,
                            0,
                        ) && crate::rational::pow_nat(sc.d, 1) == sc.d * crate::rational::pow_nat(
                            sc.d,
                            0,
                        ));
                        assert(sc.n * 1 == sc.n && sc.d * 1 == sc.d) by (nonlinear_arith);
                    } else if k == -1 {
                        assert(crate::rational::pow_nat(sc.n, 1) == sc.n * crate::rational::pow_nat(
                            sc.n,
                            0,
                        ) && crate::rational::pow_nat(sc.d, 1) == sc.d * crate::rational::pow_nat(
                            sc.d,
                            0,
                        ));
                        assert(sc.n * 1 == sc.n && sc.d * 1 == sc.d && 1 * (sc.d * 1) == sc.d && 1
                            * (sc.n * 1) == sc.n) by (nonlinear_arith);
                    }
                    assert(crate::rational::rat_bounded(pw@, 0x401));
                    assert(crate::rational::rat_fits(crate::rational::rat_mul(acc@, pw@))
                        && crate::rational::rat_bounded(
                        crate::rational::rat_mul(acc@, pw@),
                        0x800,
                    )) by (nonlinear_arith)
                        requires
                            acc@.n == 1,
                            acc@.d == 1,
                            crate::rational::rat_bounded(pw@, 0x401),
                    ;
                }
            }
            acc = match acc.mul(&pw) {
                Some(v) => v,
                None => {
                    return Err(CalcError::NumericLimitExceeded);
                },
            };
            i = i + 1;
            proof {
                assert(self@.subrange(0, i as int).drop_last() =~= self@.subrange(0, i - 1));
                assert(self@.subrange(0, i as int).last() == self@[i - 1]);
            }
        }
        proof {
            assert(self@.subrange(0, self@.len() as int) =~= self@);
        }
        Ok(acc)
    }

    /// The conversion factor from `from` into `into`: the ratio of
    /// their aggregate scale factors, defined exactly when their
    /// canonical base-unit maps agree; incompatible units fail with the
    /// dimension-mismatch error.
    pub fn try_convert(from: &Unit, into: &Unit) -> (r: Result<Rational, CalcError>)
        requires
            from.wf(),
            into.wf(),
        ensures
            match r {
                Ok(f) => dims_match(from@, into@) && f.wf() && f@ == rat_div(
                    scale_of(from@),
                    scale_of(into@),
                ),
                Err(CalcError::DimensionMismatch) => !dims_match(from@, into@),
                Err(CalcError::NumericLimitExceeded) => true,
                Err(_) => false,
            },
            (dims_match(from@, into@) && unit_small(from@) && unit_small(into@)) ==> (r is Ok
                && crate::rational::rat_bounded(
                rat_div(scale_of(from@), scale_of(into@)),
                0x40_0000,
            )),
            (!dims_match(from@, into@) && unit_small(from@) && unit_small(into@)) ==> r == Err::<
                Rational,
                CalcError,
            >(CalcError::DimensionMismatch),
    {
        let c1 = match Self::covers(from, from, into) {
            Ok(b) => b,
            Err(e) => {
                return Err(e);
            },
        };
        if !c1 {
            return Err(CalcError::DimensionMismatch);
        }
        let c2 = match Self::covers(into, from, into) {
            Ok(b) => b,
            Err(e) => {
                return Err(e);
            },
        };
        if !c2 {
            return Err(CalcError::DimensionMismatch);
        }
        proof {
            assert forall|name: Seq<char>| rat_eq(
                #[trigger] dim_exp(from@, name),
                dim_exp(into@, name),
            ) by {
                if mentions(from@, name) {
                    let (i, j) = choose|i: int, j: int|
                        0 <= i < from@.len() && 0 <= j < from@[i].unit.bases.len() && (
                        #[trigger] from@[i].unit.bases[j]).unit == name;
                    assert(rat_eq(
                        dim_exp(from@, from@[i].unit.bases[j].unit),
                        dim_exp(into@, from@[i].unit.bases[j].unit),
                    ));
                } else if mentions(into@, name) {
                    let (i, j) = choose|i: int, j: int|
                        0 <= i < into@.len() && 0 <= j < into@[i].unit.bases.len() && (
                        #[trigger] into@[i].unit.bases[j]).unit == name;
                    assert(rat_eq(
                        dim_exp(from@, into@[i].unit.bases[j].unit),
                        dim_exp(into@, into@[i].unit.bases[j].unit),
                    ));
                } else {
                    lemma_dim_exp_absent(from@, name);
                    lemma_dim_exp_absent(into@, name);
                    assert(0 * dim_exp(into@, name).d == 0 && 0 * dim_exp(from@, name).d == 0)
                        by (nonlinear_arith);
                }
            }
        }
        let sa = match from.aggregate_scale() {
            Ok(v) => v,
            Err(e) => {
                return Err(e);
            },
        };
        let sb = match into.aggregate_scale() {
            Ok(v) => v,
            Err(e) => {
                return Err(e);
            },
        };
        proof {
            lemma_scale_of_nonzero(into@);
            if unit_small(from@) && unit_small(into@) {
                assert(crate::rational::rat_fits(rat_div(sa@, sb@))
                    && crate::rational::rat_bounded(rat_div(sa@, sb@), 0x40_0000))
                    by (nonlinear_arith)
                    requires
                        crate::rational::rat_bounded(sa@, 0x800),
                        crate::rational::rat_bounded(sb@, 0x800),
                        sb@.n != 0,
                ;
            }
        }
        match sa.div(&sb) {
            Some(f) => Ok(f),
            None => Err(CalcError::NumericLimitExceeded),
        }
    }
}

/// Model of a unit value: an exact scalar paired with a unit.
pub ghost struct UnitValueV {
    pub val: ExactV,
    pub unit: Seq<UnitExpV<NamedUnitV>>,
}

/// The components of a unit with every exponent negated, as division
/// produces them.
pub open spec fn negate_comps(comps: Seq<UnitExpV<NamedUnitV>>) -> Seq<UnitExpV<NamedUnitV>> {
    comps.map_values(
        |c: UnitExpV<NamedUnitV>|
            UnitExpV {
                unit: c.unit,
                exp: ExactV {
                    re: rat_neg(c.exp.re),
                    im: rat_neg(c.exp.im),
                    approx: c.exp.approx,
                    base: c.exp.base,
                    frac_places: 0,
                },
            },
    )
}

/// The separating text before one unit component: a space, unless it
/// is the very first component and its named unit attaches without
/// spacing.
pub open spec fn comp_sep(first: bool, c: UnitExpV<NamedUnitV>) -> Seq<char> {
    if !first || c.unit.spacing {
        seq![' ']
    } else {
        Seq::<char>::empty()
    }
}

/// Whether a component's exponent is exactly one, in which case its
/// rendering is omitted.
pub open spec fn comp_exp_is_one(c: UnitExpV<NamedUnitV>) -> bool {
    rat_eq(c.exp.re, rat_of_int(1)) && rat_eq(c.exp.im, rat_of_int(0))
}

/// The rendered text of a unit component's exponent: the exponent is a
/// real exact value and renders like any scalar, digits in its own
/// preferred base with an `approx.` marker where exactness is not
/// claimed.
pub open spec fn exponent_text_ok(e: ExactV, t: Seq<char>) -> bool {
    exists|sign: bool, ints: Seq<u64>, fracs: Seq<u64>, exact: bool|
        {
            &&& #[trigger] crate::rational::base_digits_spec(
                e.re,
                e.base.radix,
                crate::exact::MAX_FRACTION_DIGITS as int,
                sign,
                ints,
                fracs,
                exact,
            )
            &&& t == crate::exact::assemble_real(sign, ints, fracs, e.approx || !exact)
        }
}

/// The rendered text of one unit component: its separator and singular
/// name, then `^` and the exponent's text exactly when the exponent is
/// not one.
pub open spec fn comp_suffix_ok(c: UnitExpV<NamedUnitV>, first: bool, t: Seq<char>) -> bool {
    if comp_exp_is_one(c) {
        t == comp_sep(first, c) + c.unit.singular
    } else {
        exists|et: Seq<char>|
            #[trigger] exponent_text_ok(c.exp, et) && t == comp_sep(first, c) + c.unit.singular
                + seq!['^'] + et
    }
}

/// The display suffix of a unit: the components' texts in sequence
/// order, the first one knowing it is first.
pub open spec fn unit_suffix_ok(comps: Seq<UnitExpV<NamedUnitV>>, t: Seq<char>) -> bool
    decreases comps.len(),
{
    if comps.len() == 0 {
        t == Seq::<char>::empty()
    } else {
        exists|t1: Seq<char>, t2: Seq<char>|
            #![trigger t1 + t2]
            {
                &&& t == t1 + t2
                &&& unit_suffix_ok(comps.drop_last(), t1)
                &&& comp_suffix_ok(comps.last(), comps.len() == 1, t2)
            }
    }
}

/// The user-facing quantity: an exact scalar paired with a unit.  All
/// arithmetic that combines two unit values first resolves unit
/// compatibility from the base-unit decompositions — never from
/// display names — and the left operand's unit wins the display unit.
#[derive(Clone, Debug)]
pub struct UnitValue {
    value: ExactValue,
    unit: Unit,
}

impl View for UnitValue {
    type V = UnitValueV;

    closed spec fn view(&self) -> UnitValueV {
        UnitValueV { val: self.value@, unit: self.unit@ }
    }
}

impl UnitValue {
    /// The representation invariant.
    pub open spec fn wf(&self) -> bool {
        &&& crate::exact::exact_value_wf(self@.val)
        &&& unit_wf(self@.unit)
    }

    /// A quantity from an integer scalar and a component list.
    pub fn new(value: i64, unit_components: Vec<UnitExponent<NamedUnit>>) -> (r: Self)
        requires
            unit_wf(comps_view(unit_components@)),
        ensures
            r.wf(),
            r@.val == (ExactValue::spec_from_i64(value as int)),
            r@.unit == comps_view(unit_components@),
    {
        UnitValue {
            value: ExactValue::from_i64(value),
            unit: Unit::from_components(unit_components),
        }
    }

    /// One kilogram: the named unit `kg`, scale one over the base unit
    /// `kilogram`.
    pub fn kg() -> (r: Self)
        ensures
            r.wf(),
            r@.unit.len() == 1,
            r@.unit[0].unit.singular == "kg"@,
            r@.unit[0].unit.plural == "kg"@,
            r@.unit[0].unit.spacing,
            r@.unit[0].unit.scale.re == rat_of_int(1),
            r@.unit[0].unit.bases.len() == 1,
            r@.unit[0].unit.bases[0].unit == "kilogram"@,
            r@.unit[0].unit.bases[0].exp.re == rat_of_int(1),
            r@.unit[0].exp.re == rat_of_int(1),
            r@.val == (ExactValue::spec_from_i64(1)),
    {
        let base_kg = BaseUnit::new("kilogram");
        let mut decomposition: Vec<UnitExponent<BaseUnit>> = Vec::new();
        decomposition.push(UnitExponent::new(base_kg, 1));
        let kg = NamedUnit::new("kg", "kg", true, decomposition, ExactValue::from_i64(1));
        let mut components: Vec<UnitExponent<NamedUnit>> = Vec::new();
        components.push(UnitExponent::new(kg, 1));
        proof {
            let m = comps_view(components@);
            assert(m.len() == 1);
            assert(m[0] == components@.index(0)@);
            assert(unit_wf(m));
        }
        Self::new(1, components)
    }

    /// One gram: the named unit `g`, scale one over one thousand of the
    /// base unit `kilogram`.
    pub fn g() -> (r: Self)
        ensures
            r.wf(),
            r@.unit.len() == 1,
            r@.unit[0].unit.singular == "g"@,
            r@.unit[0].unit.plural == "g"@,
            r@.unit[0].unit.spacing,
            r@.unit[0].unit.scale.re == (Rat { n: 1, d: 1000 }),
            r@.unit[0].unit.bases.len() == 1,
            r@.unit[0].unit.bases[0].unit == "kilogram"@,
            r@.unit[0].unit.bases[0].exp.re == rat_of_int(1),
            r@.unit[0].exp.re == rat_of_int(1),
            r@.val == (ExactValue::spec_from_i64(1)),
    {
        let base_kg = BaseUnit::new("kilogram");
        let mut decomposition: Vec<UnitExponent<BaseUnit>> = Vec::new();
        decomposition.push(UnitExponent::new(base_kg, 1));
        let g = NamedUnit::new("g", "g", true, decomposition, ExactValue::from_ratio(1, 1000));
        let mut components: Vec<UnitExponent<NamedUnit>> = Vec::new();
        components.push(UnitExponent::new(g, 1));
        proof {
            let m = comps_view(components@);
            assert(m.len() == 1);
            assert(m[0] == components@.index(0)@);
            assert(unit_wf(m));
        }
        Self::new(1, components)
    }

    /// Exact sum.  The right operand is first converted into the left
    /// operand's unit — the left operand's unit wins the display unit —
    /// and incompatible units fail with the dimension-mismatch error.
    pub fn add(self, rhs: Self) -> (r: Result<Self, CalcError>)
        requires
            self.wf(),
            rhs.wf(),
        ensures
            match r {
                Ok(v) => v.wf() && v@.unit == self@.unit && dims_match(rhs@.unit, self@.unit)
                    && cx_of(v@.val) == cx_add(
                    cx_of(self@.val),
                    cx_mul(
                        cx_of(rhs@.val),
                        CxV {
                            re: rat_div(scale_of(rhs@.unit), scale_of(self@.unit)),
                            im: rat_of_int(0),
                        },
                    ),
                ) && v@.val.approx == (self@.val.approx || rhs@.val.approx) && v@.val.base
                    == self@.val.base,
                Err(CalcError::DimensionMismatch) => !dims_match(rhs@.unit, self@.unit),
                Err(CalcError::NumericLimitExceeded) => true,
                Err(_) => false,
            },
            (dims_match(rhs@.unit, self@.unit) && unit_small(self@.unit) && unit_small(rhs@.unit)
                && crate::exact::exact_bounded(self@.val, 0x400)
                && crate::exact::exact_bounded(rhs@.val, 0x400)) ==> r is Ok,
            (!dims_match(rhs@.unit, self@.unit) && unit_small(self@.unit) && unit_small(
                rhs@.unit,
            )) ==> r == Err::<Self, CalcError>(CalcError::DimensionMismatch),
    {
        let ghost small = dims_match(rhs@.unit, self@.unit) && unit_small(self@.unit)
            && unit_small(rhs@.unit) && crate::exact::exact_bounded(self@.val, 0x400)
            && crate::exact::exact_bounded(rhs@.val, 0x400);
        let factor = match Unit::try_convert(&rhs.unit, &self.unit) {
            Ok(f) => f,
            Err(e) => {
                return Err(e);
            },
        };
        proof {
            if small {
                lemma_scale_mul_fits(rhs@.val, factor@);
            }
        }
        let scaled = match rhs.value.mul(ExactValue::from_rational(factor)) {
            Ok(v) => v,
            Err(_) => {
                return Err(CalcError::NumericLimitExceeded);
            },
        };
        proof {
            if small {
                lemma_small_combine_fits(self@.val, cx_of(scaled@));
            }
        }
        let value = match self.value.add(scaled) {
            Ok(v) => v,
            Err(_) => {
                return Err(CalcError::NumericLimitExceeded);
            },
        };
        Ok(UnitValue { value, unit: self.unit })
    }

    /// Exact difference, with the same conversion and display-unit rule
    /// as addition.
    pub fn sub(self, rhs: Self) -> (r: Result<Self, CalcError>)
        requires
            self.wf(),
            rhs.wf(),
        ensures
            match r {
                Ok(v) => v.wf() && v@.unit == self@.unit && dims_match(rhs@.unit, self@.unit)
                    && cx_of(v@.val) == crate::exact::cx_sub(
                    cx_of(self@.val),
                    cx_mul(
                        cx_of(rhs@.val),
                        CxV {
                            re: rat_div(scale_of(rhs@.unit), scale_of(self@.unit)),
                            im: rat_of_int(0),
                        },
                    ),
                ) && v@.val.approx == (self@.val.approx || rhs@.val.approx) && v@.val.base
                    == self@.val.base,
                Err(CalcError::DimensionMismatch) => !dims_match(rhs@.unit, self@.unit),
                Err(CalcError::NumericLimitExceeded) => true,
                Err(_) => false,
            },
            (dims_match(rhs@.unit, self@.unit) && unit_small(self@.unit) && unit_small(rhs@.unit)
                && crate::exact::exact_bounded(self@.val, 0x400)
                && crate::exact::exact_bounded(rhs@.val, 0x400)) ==> r is Ok,
            (!dims_match(rhs@.unit, self@.unit) && unit_small(self@.unit) && unit_small(
                rhs@.unit,
            )) ==> r == Err::<Self, CalcError>(CalcError::DimensionMismatch),
    {
        let ghost small = dims_match(rhs@.unit, self@.unit) && unit_small(self@.unit)
            && unit_small(rhs@.unit) && crate::exact::exact_bounded(self@.val, 0x400)
            && crate::exact::exact_bounded(rhs@.val, 0x400);
        let factor = match Unit::try_convert(&rhs.unit, &self.unit) {
            Ok(f) => f,
            Err(e) => {
                return Err(e);
            },
        };
        proof {
            if small {
                lemma_scale_mul_fits(rhs@.val, factor@);
            }
        }
        let scaled = match rhs.value.mul(ExactValue::from_rational(factor)) {
            Ok(v) => v,
            Err(_) => {
                return Err(CalcError::NumericLimitExceeded);
            },
        };
        proof {
            if small {
                lemma_small_combine_fits(self@.val, cx_of(scaled@));
            }
        }
        let value = match self.value.sub(scaled) {
            Ok(v) => v,
            Err(_) => {
                return Err(CalcError::NumericLimitExceeded);
            },
        };
        Ok(UnitValue { value, unit: self.unit })
    }

    /// Exact product: the scalars multiply and the unit is the
    /// concatenation of both component sequences, unsimplified.
    pub fn mul(self, rhs: Self) -> (r: Result<Self, CalcError>)
        requires
            self.wf(),
            rhs.wf(),
        ensures
            match r {
                Ok(v) => v.wf() && v@.unit == self@.unit + rhs@.unit && cx_of(v@.val) == cx_mul(
                    cx_of(self@.val),
                    cx_of(rhs@.val),
                ) && v@.val.approx == (self@.val.approx || rhs@.val.approx),
                Err(e) => e == CalcError::NumericLimitExceeded,
            },
            r is Ok <==> crate::exact::cx_mul_fits(cx_of(self@.val), cx_of(rhs@.val)),
    {
        let value = match self.value.mul(rhs.value) {
            Ok(v) => v,
            Err(_) => {
                return Err(CalcError::NumericLimitExceeded);
            },
        };
        let mut components = self.unit.into_components();
        let mut rest = rhs.unit.into_components();
        let ghost left = components@;
        let ghost right = rest@;
        components.append(&mut rest);
        let unit = Unit::from_components_trusted_wf(components);
        proof {
            lemma_comps_view_concat(left, right);
            assert(unit@ =~= self@.unit + rhs@.unit);
            assert(unit_wf(unit@)) by {
                assert forall|i: int| 0 <= i < unit@.len() implies comp_wf(
                    #[trigger] unit@[i],
                ) by {
                    if i < self@.unit.len() {
                        assert(unit@[i] == self@.unit[i]);
                    } else {
                        assert(unit@[i] == rhs@.unit[i - self@.unit.len()]);
                    }
                }
            }
        }
        Ok(UnitValue { value, unit })
    }

    /// Exact quotient: the scalars divide — a zero right operand fails
    /// with the division-by-zero error, whatever the units — and the
    /// unit is the left operand's components followed by the right
    /// operand's with every exponent negated.  The rational scalar is
    /// closed under division, so the quotient of exact operands stays
    /// exact; a non-terminating expansion is marked approximate at
    /// rendering instead.
    pub fn div(self, rhs: Self) -> (r: Result<Self, CalcError>)
        requires
            self.wf(),
            rhs.wf(),
        ensures
            match r {
                Ok(v) => v.wf() && !cx_is_zero(cx_of(rhs@.val)) && v@.unit == self@.unit
                    + negate_comps(rhs@.unit) && cx_of(v@.val) == cx_div(
                    cx_of(self@.val),
                    cx_of(rhs@.val),
                ) && v@.val.approx == (self@.val.approx || rhs@.val.approx),
                Err(CalcError::DivisionByZero) => cx_is_zero(cx_of(rhs@.val)),
                Err(CalcError::NumericLimitExceeded) => !cx_is_zero(cx_of(rhs@.val)),
                Err(_) => false,
            },
            (r is Err && r->Err_0 == CalcError::DivisionByZero) <==> cx_is_zero(cx_of(rhs@.val)),
            (!cx_is_zero(cx_of(rhs@.val)) && crate::exact::cx_div_fits(
                cx_of(self@.val),
                cx_of(rhs@.val),
            ) && (forall|j: int|
                0 <= j < rhs@.unit.len() ==> (crate::rational::rat_fits(
                    rat_neg((#[trigger] rhs@.unit[j]).exp.re),
                ) && crate::rational::rat_fits(rat_neg(rhs@.unit[j].exp.im))))) ==> r is Ok,
    {
        if rhs.value.is_zero() {
            return Err(CalcError::DivisionByZero);
        }
        let value = match self.value.div(rhs.value) {
            Ok(v) => v,
            Err(_) => {
                return Err(CalcError::NumericLimitExceeded);
            },
        };
        let mut components = self.unit.into_components();
        let rhs_components = rhs.unit.into_components();
        let ghost rhs_view = comps_view(rhs_components@);
        let mut j: usize = 0;
        while j < rhs_components.len()
            invariant
                j <= rhs_components@.len(),
                rhs_view == comps_view(rhs_components@),
                rhs_view == rhs@.unit,
                unit_wf(rhs_view),
                comps_view(components@) =~= self@.unit
                    + negate_comps(rhs_view).subrange(0, j as int),
                unit_wf(self@.unit),
                !cx_is_zero(cx_of(rhs@.val)),
            decreases rhs_components@.len() - j,
        {
            let c = &rhs_components[j];
            proof {
                assert(c@ == rhs_view[j as int]);
                assert(comp_wf(rhs_view[j as int]));
            }
            let negated = match c.exponent.neg() {
                Ok(v) => v,
                Err(_) => {
                    return Err(CalcError::NumericLimitExceeded);
                },
            };
            let du = c.unit.duplicate();
            let newcomp = UnitExponent { unit: du, exponent: negated };
            let ghost pre = components@;
            components.push(newcomp);
            j = j + 1;
            proof {
                assert(newcomp@ == negate_comps(rhs_view)[j - 1]);
                lemma_comps_view_push(pre, newcomp);
                assert(negate_comps(rhs_view).subrange(0, j as int) =~= negate_comps(
                    rhs_view,
                ).subrange(0, j - 1).push(negate_comps(rhs_view)[j - 1]));
                assert(comps_view(components@) =~= self@.unit
                    + negate_comps(rhs_view).subrange(0, j as int));
            }
        }
        proof {
            assert(negate_comps(rhs_view).subrange(0, negate_comps(rhs_view).len() as int)
                =~= negate_comps(rhs_view));
        }
        let unit = Unit::from_components_trusted_wf(components);
        proof {
            assert(unit@ =~= self@.unit + negate_comps(rhs@.unit));
            assert(unit_wf(unit@)) by {
                assert forall|i: int| 0 <= i < unit@.len() implies comp_wf(
                    #[trigger] unit@[i],
                ) by {
                    if i < self@.unit.len() {
                        assert(unit@[i] == self@.unit[i]);
                    } else {
                        let k = i - self@.unit.len();
                        assert(unit@[i] == negate_comps(rhs@.unit)[k]);
                        assert(comp_wf(rhs@.unit[k]));
                    }
                }
            }
        }
        Ok(UnitValue { value, unit })
    }

    /// Whether the quantity carries no unit component.  A unit whose
    /// components cancel without having been simplified away — such as
    /// a metre per metre — still counts as carrying units.
    pub fn is_unitless(&self) -> (r: bool)
        ensures
            r == (self@.unit.len() == 0),
    {
        self.unit.component_count() == 0
    }
}

impl Unit {
    /// The components, surrendered.
    fn into_components(self) -> (r: Vec<UnitExponent<NamedUnit>>)
        ensures
            comps_view(r@) == self@,
    {
        self.components
    }

    /// A unit over components whose well-formedness the caller has
    /// already established at the view level.
    fn from_components_trusted_wf(components: Vec<UnitExponent<NamedUnit>>) -> (r: Self)
        ensures
            r@ == comps_view(components@),
    {
        Unit { components }
    }

    /// How many components the unit has.
    pub fn component_count(&self) -> (r: usize)
        ensures
            r == self@.len(),
    {
        self.components.len()
    }
}

impl UnitValue {
    /// Exact integer power; both operands must be unitless — unit
    /// exponents are out of scope — and the exponent expansion polls
    /// the cancellation object.
    pub fn pow<I: Interrupt>(self, rhs: Self, intr: &I) -> (r: Result<Self, IntErr>)
        requires
            self.wf(),
            rhs.wf(),
        ensures
            match r {
                Ok(v) => v.wf() && v@.unit == self@.unit && v@.val.approx == (self@.val.approx
                    || rhs@.val.approx) && forall|k: int|
                    (#[trigger] (k * rhs@.val.re.d)) == rhs@.val.re.n ==> cx_of(v@.val) == cx_pow(
                        cx_of(self@.val),
                        k,
                    ),
                Err(IntErr::Error(CalcError::UnsupportedUnitOperation)) => !(self@.unit.len() == 0
                    && rhs@.unit.len() == 0),
                Err(IntErr::Error(CalcError::UnsupportedOperation)) => !(rat_is_zero(rhs@.val.im)
                    && exists|k: int| (#[trigger] (k * rhs@.val.re.d)) == rhs@.val.re.n),
                Err(IntErr::Error(CalcError::DivisionByZero)) => cx_is_zero(cx_of(self@.val))
                    && rat_lt(rhs@.val.re, rat_of_int(0)),
                Err(IntErr::Error(CalcError::NumericLimitExceeded)) => true,
                Err(IntErr::Interrupted) => intr.requested(),
                Err(_) => false,
            },
            (r is Err && r->Err_0 == IntErr::Error(CalcError::UnsupportedUnitOperation)) <==> !(
            self@.unit.len() == 0 && rhs@.unit.len() == 0),
            (self@.unit.len() == 0 && rhs@.unit.len() == 0 && !intr.requested() && self@.val.im
                == rat_of_int(0) && crate::rational::rat_bounded(self@.val.re, 0x400)
                && rat_is_zero(rhs@.val.im) && (rhs@.val.re.n == 0 || rhs@.val.re.n
                == rhs@.val.re.d)) ==> r is Ok,
            (self@.unit.len() == 0 && rhs@.unit.len() == 0 && intr.requested() && rat_is_zero(
                rhs@.val.im,
            ) && exists|k2: int| (#[trigger] (k2 * rhs@.val.re.d)) == rhs@.val.re.n && k2 > 0)
                ==> r == Err::<Self, IntErr>(IntErr::Interrupted),
    {
        if !self.is_unitless() || !rhs.is_unitless() {
            return Err(IntErr::Error(CalcError::UnsupportedUnitOperation));
        }
        let value = match self.value.pow(rhs.value, intr) {
            Ok(v) => v,
            Err(e) => {
                return Err(e);
            },
        };
        Ok(UnitValue { value, unit: self.unit })
    }

    /// The `n`-th root; both operands must be unitless — unit exponents
    /// are out of scope — and a result not marked approximate raised
    /// back to the `n`-th power is the radicand.
    pub fn root_n(self, rhs: &Self) -> (r: Result<Self, CalcError>)
        requires
            self.wf(),
            rhs.wf(),
        ensures
            match r {
                Ok(v) => v.wf() && v@.unit == self@.unit && rat_is_zero(v@.val.im) && (
                self@.val.approx ==> v@.val.approx) && (!v@.val.approx ==> forall|k: int|
                    ((#[trigger] (k * rhs@.val.re.d)) == rhs@.val.re.n && k > 0)
                        ==> crate::rational::rat_pow(v@.val.re, k as nat) == self@.val.re),
                Err(CalcError::UnsupportedUnitOperation) => !(self@.unit.len() == 0
                    && rhs@.unit.len() == 0),
                Err(CalcError::UnsupportedOperation) => true,
                Err(CalcError::NumericLimitExceeded) => true,
                Err(_) => false,
            },
            (r is Err && r->Err_0 == CalcError::UnsupportedUnitOperation) <==> !(self@.unit.len()
                == 0 && rhs@.unit.len() == 0),
    {
        if !self.is_unitless() || !rhs.is_unitless() {
            return Err(CalcError::UnsupportedUnitOperation);
        }
        let value = match self.value.root_n(&rhs.value) {
            Ok(v) => v,
            Err(e) => {
                return Err(e);
            },
        };
        Ok(UnitValue { value, unit: self.unit })
    }

    /// A fixed rational approximation of pi, unitless and marked
    /// approximate.
    pub fn approx_pi() -> (r: Self)
        ensures
            r.wf(),
            r@.unit.len() == 0,
            r@.val.approx,
            r@.val.im == rat_of_int(0),
            r@.val.re == (Rat { n: 314159265358979, d: 100000000000000 }),
    {
        UnitValue { value: ExactValue::approx_pi(), unit: Unit::unitless() }
    }

    /// The imaginary unit, unitless.
    pub fn i() -> (r: Self)
        ensures
            r.wf(),
            r@.unit.len() == 0,
            r@.val.re == rat_of_int(0),
            r@.val.im == rat_of_int(1),
            !r@.val.approx,
    {
        UnitValue { value: ExactValue::i(), unit: Unit::unitless() }
    }

    /// Marks the scalar approximate without changing magnitude or unit;
    /// marking twice is the same as marking once.
    pub fn make_approximate(self) -> (r: Self)
        requires
            self.wf(),
        ensures
            r.wf(),
            r@.unit == self@.unit,
            r@.val == (ExactV {
                re: self@.val.re,
                im: self@.val.im,
                approx: true,
                base: self@.val.base,
                frac_places: self@.val.frac_places,
            }),
    {
        UnitValue { value: self.value.make_approximate(), unit: self.unit }
    }

    /// The additive identity, unitless, tagged with the given preferred
    /// base: the seed of digit accumulation.
    pub fn zero_with_base(base: Base) -> (r: Self)
        requires
            base.wf(),
        ensures
            r.wf(),
            r@.unit.len() == 0,
            r@.val == (ExactV {
                re: rat_of_int(0),
                im: rat_of_int(0),
                approx: false,
                base: base@,
                frac_places: 0,
            }),
    {
        UnitValue { value: ExactValue::zero_with_base(base), unit: Unit::unitless() }
    }

    /// Multiplies the scalar by the base and adds the digit: one step
    /// of building an integer left to right.  The unit is untouched.
    pub fn add_digit_in_base(&mut self, digit: u64, base: Base) -> (r: Result<(), CalcError>)
        requires
            old(self).wf(),
            base.wf(),
        ensures
            final (self)@.unit == old(self)@.unit,
            (*final (self)).wf(),
            match r {
                Ok(()) => final (self)@.val == (ExactV {
                    re: rat_add(
                        rat_mul(old(self)@.val.re, rat_of_int(base@.radix)),
                        rat_of_int(digit as int),
                    ),
                    im: old(self)@.val.im,
                    approx: old(self)@.val.approx,
                    base: old(self)@.val.base,
                    frac_places: old(self)@.val.frac_places,
                }),
                Err(CalcError::ParseDigit) => digit >= base@.radix && final (self)@.val == old(
                    self,
                )@.val,
                Err(CalcError::NumericLimitExceeded) => digit < base@.radix && final (self)@.val
                    == old(self)@.val,
                Err(_) => false,
            },
            digit >= base@.radix ==> r == Err::<(), CalcError>(CalcError::ParseDigit),
            r is Ok <==> (digit < base@.radix && crate::rational::rat_fits(
                rat_mul(old(self)@.val.re, rat_of_int(base@.radix)),
            ) && crate::rational::rat_fits(
                rat_add(
                    rat_mul(old(self)@.val.re, rat_of_int(base@.radix)),
                    rat_of_int(digit as int),
                ),
            )),
            digit < base@.radix && crate::rational::rat_bounded(old(self)@.val.re, 0x10_0000)
                ==> r is Ok,
    {
        self.value.add_digit_in_base(digit, base)
    }

    /// Adds a digit after the decimal point: the scalar gains
    /// `digit / radix^(places + 1)`, where `places` counts the fraction
    /// digits accumulated so far.  The unit is untouched.
    pub fn add_fraction_digit_in_base(&mut self, digit: u64, base: Base) -> (r: Result<
        (),
        CalcError,
    >)
        requires
            old(self).wf(),
            base.wf(),
        ensures
            final (self)@.unit == old(self)@.unit,
            (*final (self)).wf(),
            match r {
                Ok(()) => final (self)@.val == (ExactV {
                    re: rat_add(
                        old(self)@.val.re,
                        Rat {
                            n: digit as int,
                            d: crate::rational::pow_nat(
                                base@.radix,
                                (old(self)@.val.frac_places + 1) as nat,
                            ),
                        },
                    ),
                    im: old(self)@.val.im,
                    approx: old(self)@.val.approx,
                    base: old(self)@.val.base,
                    frac_places: old(self)@.val.frac_places + 1,
                }),
                Err(CalcError::ParseDigit) => digit >= base@.radix && final (self)@.val == old(
                    self,
                )@.val,
                Err(CalcError::NumericLimitExceeded) => digit < base@.radix && final (self)@.val
                    == old(self)@.val,
                Err(_) => false,
            },
            digit >= base@.radix ==> r == Err::<(), CalcError>(CalcError::ParseDigit),
            r is Ok <==> (digit < base@.radix && old(self)@.val.frac_places + 1 < 0x1_0000_0000
                && crate::rational::pow_nat(
                base@.radix,
                (old(self)@.val.frac_places + 1) as nat,
            ) <= 0x7fff_ffff_ffff_ffff && crate::rational::rat_fits(
                rat_add(
                    old(self)@.val.re,
                    Rat {
                        n: digit as int,
                        d: crate::rational::pow_nat(
                            base@.radix,
                            (old(self)@.val.frac_places + 1) as nat,
                        ),
                    },
                ),
            )),
    {
        self.value.add_fraction_digit_in_base(digit, base)
    }

    /// Whether the scalar is zero.
    pub fn is_zero(&self) -> (r: bool)
        ensures
            r == cx_is_zero(cx_of(self@.val)),
    {
        self.value.is_zero()
    }

    /// Whether the quantity is a real number below zero.
    pub fn is_negative(&self) -> (r: bool)
        requires
            self.wf(),
        ensures
            r == (rat_is_zero(self@.val.im) && rat_lt(self@.val.re, rat_of_int(0))),
    {
        self.value.is_negative()
    }

    /// Exact negation; the unit is untouched.
    pub fn neg(self) -> (r: Result<Self, CalcError>)
        requires
            self.wf(),
        ensures
            match r {
                Ok(v) => v.wf() && v@.unit == self@.unit && v@.val.re == rat_neg(self@.val.re)
                    && v@.val.im == rat_neg(self@.val.im) && v@.val.approx == self@.val.approx,
                Err(e) => e == CalcError::NumericLimitExceeded,
            },
            r is Ok <==> (crate::rational::rat_fits(rat_neg(self@.val.re))
                && crate::rational::rat_fits(rat_neg(self@.val.im))),
    {
        let value = match self.value.neg() {
            Ok(v) => v,
            Err(e) => {
                return Err(e);
            },
        };
        Ok(UnitValue { value, unit: self.unit })
    }

    /// Renders the quantity: the scalar in its preferred base, then
    /// each unit component in sequence — a separating space before a
    /// component unless it is the very first and its named unit
    /// attaches without spacing, and `^exponent` after a component
    /// whose exponent is not exactly one.
    pub fn format(&self) -> (r: String)
        requires
            self.wf(),
        ensures
            rat_is_zero(self@.val.im) ==> exists|
                sign: bool,
                ints: Seq<u64>,
                fracs: Seq<u64>,
                exact: bool,
                sfx: Seq<char>,
            |
                #![trigger crate::rational::base_digits_spec(self@.val.re, self@.val.base.radix, crate::exact::MAX_FRACTION_DIGITS as int, sign, ints, fracs, exact), unit_suffix_ok(self@.unit, sfx)]
                {
                    &&& crate::rational::base_digits_spec(
                        self@.val.re,
                        self@.val.base.radix,
                        crate::exact::MAX_FRACTION_DIGITS as int,
                        sign,
                        ints,
                        fracs,
                        exact,
                    )
                    &&& unit_suffix_ok(self@.unit, sfx)
                    &&& r@ == crate::exact::assemble_real(
                        sign,
                        ints,
                        fracs,
                        self@.val.approx || !exact,
                    ) + sfx
                },
    {
        let mut out = self.value.format();
        let ghost value_part = out@;
        let ghost mut sfx: Seq<char> = Seq::empty();
        proof {
            assert(self@.unit.subrange(0, 0) =~= Seq::<UnitExpV<NamedUnitV>>::empty());
            assert(unit_suffix_ok(self@.unit.subrange(0, 0), sfx));
            assert(out@ =~= value_part + sfx);
        }
        let one = ExactValue::from_i64(1);
        let mut i: usize = 0;
        while i < self.unit.component_count()
            invariant
                self.wf(),
                i <= self@.unit.len(),
                one.wf(),
                one@.re == rat_of_int(1),
                one@.im == rat_of_int(0),
                unit_suffix_ok(self@.unit.subrange(0, i as int), sfx),
                out@ == value_part + sfx,
            decreases self@.unit.len() - i,
        {
            let comp = self.unit.component_at(i);
            proof {
                assert(comp@ == self@.unit[i as int]);
                assert(comp_wf(self@.unit[i as int]));
            }
            let ghost seg_start = out@;
            if i > 0 || comp.spacing_flag() {
                out.push(' ');
            }
            out.append(comp.singular_str());
            proof {
                assert(out@ =~= seg_start + comp_sep(i == 0, comp@) + comp@.unit.singular);
            }
            let exp = comp.exponent_value();
            if !exp.eq_value(&one) {
                out.push('^');
                let exp_text = exp.format();
                out.append(exp_text.as_str());
                proof {
                    assert(exponent_text_ok(comp@.exp, exp_text@));
                    assert(out@ =~= seg_start + (comp_sep(i == 0, comp@) + comp@.unit.singular
                        + seq!['^'] + exp_text@));
                    assert(comp_suffix_ok(
                        comp@,
                        i == 0,
                        comp_sep(i == 0, comp@) + comp@.unit.singular + seq!['^'] + exp_text@,
                    ));
                    sfx = sfx + (comp_sep(i == 0, comp@) + comp@.unit.singular + seq!['^']
                        + exp_text@);
                }
            } else {
                proof {
                    assert(comp_exp_is_one(comp@));
                    assert(comp_suffix_ok(
                        comp@,
                        i == 0,
                        comp_sep(i == 0, comp@) + comp@.unit.singular,
                    ));
                    sfx = sfx + (comp_sep(i == 0, comp@) + comp@.unit.singular);
                }
            }
            i = i + 1;
            proof {
                let prefix = self@.unit.subrange(0, i as int);
                assert(prefix.drop_last() =~= self@.unit.subrange(0, i - 1));
                assert(prefix.last() == self@.unit[i - 1]);
                assert(prefix.len() == 1 <==> i == 1);
                assert(unit_suffix_ok(prefix, sfx));
                assert(out@ =~= value_part + sfx);
            }
        }
        proof {
            assert(self@.unit.subrange(0, self@.unit.len() as int) =~= self@.unit);
        }
        out
    }
}

impl UnitExponent<NamedUnit> {
    /// The named unit's spacing flag.
    fn spacing_flag(&self) -> (r: bool)
        ensures
            r == self@.unit.spacing,
    {
        self.unit.spacing
    }

    /// The named unit's singular display name.
    fn singular_str(&self) -> (r: &str)
        ensures
            r@ == self@.unit.singular,
    {
        self.unit.singular_name.as_str()
    }

    /// The exponent.
    fn exponent_value(&self) -> (r: ExactValue)
        ensures
            r@ == self@.exp,
    {
        self.exponent
    }
}

impl Unit {
    /// The component at an index.
    fn component_at(&self, i: usize) -> (r: &UnitExponent<NamedUnit>)
        requires
            i < self@.len(),
        ensures
            r@ == self@[i as int],
    {
        &self.components[i]
    }
}

/// Scaling a small value by a bounded real conversion factor stays
/// representable, with the product's components still modest.
proof fn lemma_scale_mul_fits(v: ExactV, f: Rat)
    requires
        crate::exact::exact_bounded(v, 0x400),
        crate::rational::rat_bounded(f, 0x40_0000),
    ensures
        crate::exact::cx_mul_fits(cx_of(v), CxV { re: f, im: rat_of_int(0) }),
        crate::rational::rat_bounded(
            cx_mul(cx_of(v), CxV { re: f, im: rat_of_int(0) }).re,
            0x1_0000_0000_0000,
        ),
        crate::rational::rat_bounded(
            cx_mul(cx_of(v), CxV { re: f, im: rat_of_int(0) }).im,
            0x1_0000_0000_0000,
        ),
{
    let an = v.re.n;
    let ad = v.re.d;
    let bn = v.im.n;
    let bd = v.im.d;
    assert((-0x1_0000_0000_0000 < an * f.n < 0x1_0000_0000_0000) && (0 < ad * f.d
        < 0x1_0000_0000_0000) && (bn * 0 == 0) && (bd * 1 == bd) && (an * 0 == 0) && (ad * 1
        == ad) && (-0x1_0000_0000_0000 < bn * f.n < 0x1_0000_0000_0000) && (0 < bd * f.d
        < 0x1_0000_0000_0000) && (-0x1_0000_0000_0000 < (an * f.n) * (bd * 1) - (bn * 0) * (ad
        * f.d) < 0x1_0000_0000_0000) && (0 < (ad * f.d) * (bd * 1) < 0x1_0000_0000_0000) && (
    -0x1_0000_0000_0000 < (an * 0) * (bd * f.d) + (bn * f.n) * (ad * 1) < 0x1_0000_0000_0000)
        && (0 < (ad * 1) * (bd * f.d) < 0x1_0000_0000_0000)) by (nonlinear_arith)
        requires
            -0x400 < an < 0x400,
            0 < ad < 0x400,
            -0x400 < bn < 0x400,
            0 < bd < 0x400,
            -0x40_0000 < f.n < 0x40_0000,
            0 < f.d < 0x40_0000,
    ;
}

/// Adding or subtracting a modest scaled value onto a small one stays
/// representable.
proof fn lemma_small_combine_fits(u: ExactV, w: CxV)
    requires
        crate::exact::exact_bounded(u, 0x400),
        crate::rational::rat_bounded(w.re, 0x1_0000_0000_0000),
        crate::rational::rat_bounded(w.im, 0x1_0000_0000_0000),
    ensures
        crate::exact::cx_add_fits(cx_of(u), w),
        crate::exact::cx_sub_fits(cx_of(u), w),
{
    assert((-0x8000_0000_0000_0000 <= u.re.n * w.re.d + w.re.n * u.re.d <= 0x7fff_ffff_ffff_ffff)
        && (-0x8000_0000_0000_0000 <= u.re.n * w.re.d - w.re.n * u.re.d
        <= 0x7fff_ffff_ffff_ffff) && (0 < u.re.d * w.re.d <= 0x7fff_ffff_ffff_ffff) && (
    -0x8000_0000_0000_0000 <= u.im.n * w.im.d + w.im.n * u.im.d <= 0x7fff_ffff_ffff_ffff) && (
    -0x8000_0000_0000_0000 <= u.im.n * w.im.d - w.im.n * u.im.d <= 0x7fff_ffff_ffff_ffff) && (0
        < u.im.d * w.im.d <= 0x7fff_ffff_ffff_ffff)) by (nonlinear_arith)
        requires
            -0x400 < u.re.n < 0x400,
            0 < u.re.d < 0x400,
            -0x400 < u.im.n < 0x400,
            0 < u.im.d < 0x400,
            -0x1_0000_0000_0000 < w.re.n < 0x1_0000_0000_0000,
            0 < w.re.d < 0x1_0000_0000_0000,
            -0x1_0000_0000_0000 < w.im.n < 0x1_0000_0000_0000,
            0 < w.im.d < 0x1_0000_0000_0000,
    ;
}

} // verus!
