//! The parameters of functions, and where they lie when the function is entered.

use vstd::prelude::*;

use crate::debug_unit::AT_LOCATION;
use crate::debug_unit::AT_NAME;
use crate::debug_unit::AttrValue;
use crate::debug_unit::DebugUnit;
use crate::debug_unit::DwarfError;
use crate::debug_unit::UnitModel;
use crate::debug_unit::Fault;
use crate::debug_unit::Shape;
use crate::debug_unit::fault;
use crate::debug_unit::Location;
use crate::debug_unit::LocationV;
use crate::debug_unit::readable_locations;
use crate::debug_unit::TAG_PARAMETER;
use crate::debug_unit::text_outcome;
use crate::entries::later;
use crate::entries::left_from;
use crate::entries::lemma_prefixed;
use crate::entries::name_or;
use crate::entries::read_type;
use crate::entries::prefixed;
use crate::entries::type_of;
use crate::location::entry_text;
use crate::location::expr_entry_reg;
use crate::meta::Param;
use crate::meta::ParamV;
use crate::meta::views;
use crate::text::opt_text;
use crate::text::Text;

verus! {

// ---- parameters ----

/// Where a parameter lies when its function is entered at `low`, from a list of the places where it
/// lies at various addresses: the place of the first range that covers the entry, or else, as also
/// where that place cannot be told, that of the earliest range before it in the list.
pub open spec fn place_on_entry(
    list: Seq<Option<LocationV>>,
    low: u64,
    earliest: Option<(u64, Option<Text>)>,
) -> Result<Option<Text>, Fault>
    decreases list.len(),
{
    let fallback: Option<Text> = match earliest {
        Some(e) => e.1,
        None => None,
    };
    if list.len() == 0 {
        Ok(fallback)
    } else {
        match list[0] {
            None => Err(Fault::Unreadable),
            Some(l) => {
                let place = entry_text(l.ops);
                if l.begin <= low && low < l.end {
                    Ok(
                        if place is Some {
                            place
                        } else {
                            fallback
                        },
                    )
                } else if earliest is None || l.begin < earliest.unwrap().0 {
                    place_on_entry(list.drop_first(), low, Some((l.begin, place)))
                } else {
                    place_on_entry(list.drop_first(), low, earliest)
                }
            },
        }
    }
}

/// Where the parameter at `off` lies when its function is entered at `low`.
pub open spec fn entry_place(u: UnitModel, off: usize, low: u64) -> Result<Option<Text>, Fault> {
    match u.value_at(off, AT_LOCATION) {
        Err(f) => Err(f),
        Ok(None) => Ok(None),
        Ok(Some(AttrValue::Exprloc)) => match u.ops_at(off, AT_LOCATION) {
            Err(f) => Err(f),
            Ok(ops) => Ok(entry_text(ops)),
        },
        Ok(Some(_)) => match u.locations_at(off, AT_LOCATION) {
            Err(f) => Err(f),
            Ok(None) => Ok(None),
            Ok(Some(list)) => place_on_entry(list, low, None),
        },
    }
}

/// The parameter that an entry describes, of a function that is entered at `low`.
pub open spec fn param_at(u: UnitModel, off: usize, low: u64) -> Result<ParamV, Fault> {
    match u.text_at(off, AT_NAME) {
        Err(f) => Err(f),
        Ok(name) => match type_of(u, off) {
            Err(f) => Err(f),
            Ok(ty) => match entry_place(u, off, low) {
                Err(f) => Err(f),
                Ok(place) => Ok(
                    ParamV { name: name_or(name, Seq::empty()), ty_name: ty.0, size: ty.1, entry_reg: place },
                ),
            },
        },
    }
}

/// The parameter that an entry describes, if it describes one.
pub open spec fn params_here(u: UnitModel, off: usize, shape: Shape, low: u64) -> Result<Seq<ParamV>, Fault> {
    if shape.tag == TAG_PARAMETER {
        match param_at(u, off, low) {
            Err(f) => Err(f),
            Ok(one) => Ok(seq![one]),
        }
    } else {
        Ok(Seq::empty())
    }
}

/// The parameters among the entries from a position on that have the same parent.
pub open spec fn params_from(u: UnitModel, pos: Option<usize>, low: u64) -> Result<Seq<ParamV>, Fault>
    decreases left_from(u, pos),
{
    match pos {
        None => Ok(Seq::empty()),
        Some(p) => match u.shape_at(p) {
            Err(f) => Err(f),
            Ok(shape) => if !shape.present {
                Ok(Seq::empty())
            } else {
                match params_here(u, p, shape, low) {
                    Err(f) => Err(f),
                    Ok(here) => match u.sibling_of(p) {
                        Err(f) => Err(f),
                        Ok(next) => prefixed(here, params_from(u, later(u, p, next), low)),
                    },
                }
            },
        },
    }
}

/// Where a parameter lies on entry, from a list of the places where it lies.
fn choose_place(list: &Vec<Result<Location, gimli::Error>>, low: u64) -> (r: Result<Option<String>, DwarfError>)
    ensures
        text_outcome(r) == place_on_entry(readable_locations(list@), low, None),
{
    let ghost all = readable_locations(list@);
    let mut earliest: Option<(u64, Option<String>)> = None;
    let mut i: usize = 0;
    assert(all.skip(0) =~= all);
    while i < list.len()
        invariant
            i <= list.len(),
            all == readable_locations(list@),
            all.len() == list.len(),
            place_on_entry(all, low, None) == place_on_entry(
                all.skip(i as int),
                low,
                match earliest {
                    Some(e) => Some((e.0, opt_text(e.1))),
                    None => None,
                },
            ),
        decreases list.len() - i,
    {
        assert(all.skip(i as int)[0] == all[i as int]);
        assert(all.skip(i as int).drop_first() =~= all.skip(i + 1));
        match &list[i] {
            Ok(l) => {
                let place: Option<String> = expr_entry_reg(&l.ops);
                if l.begin <= low && low < l.end {
                    return Ok(
                        if place.is_some() {
                            place
                        } else {
                            match earliest {
                                Some(e) => e.1,
                                None => None,
                            }
                        },
                    );
                }
                let sooner: bool = match &earliest {
                    Some(e) => l.begin < e.0,
                    None => true,
                };
                if sooner {
                    earliest = Some((l.begin, place));
                }
            },
            Err(e) => {
                return Err(DwarfError::Unreadable(*e));
            },
        }
        i += 1;
    }
    assert(all.skip(i as int) =~= Seq::<Option<LocationV>>::empty());
    Ok(
        match earliest {
            Some(e) => e.1,
            None => None,
        },
    )
}

/// Where the parameter at `off` lies when its function is entered at `low`.
fn read_entry_place<U: DebugUnit>(u: &U, off: usize, low: u64) -> (r: Result<Option<String>, DwarfError>)
    ensures
        text_outcome(r) == entry_place(u.model(), off, low),
{
    match u.value(off, AT_LOCATION)? {
        None => Ok(None),
        Some(AttrValue::Exprloc) => {
            let ops = u.ops(off, AT_LOCATION)?;
            Ok(expr_entry_reg(&ops))
        },
        Some(_) => match u.locations(off, AT_LOCATION)? {
            Some(list) => choose_place(&list, low),
            None => Ok(None),
        },
    }
}

/// The parameter that an entry describes, of a function that is entered at `low`.
fn read_param<U: DebugUnit>(u: &U, off: usize, low: u64) -> (r: Result<Param, DwarfError>)
    ensures
        match r {
            Ok(p) => param_at(u.model(), off, low) == Ok::<ParamV, Fault>(p@),
            Err(e) => param_at(u.model(), off, low) == Err::<ParamV, Fault>(fault(e)),
        },
{
    let name: String = match u.text(off, AT_NAME)? {
        Some(n) => n,
        None => String::new(),
    };
    let (ty_name, size) = read_type(u, off)?;
    let entry_reg = read_entry_place(u, off, low)?;
    assert(name_or(None, Seq::<char>::empty()) =~= Seq::<char>::empty());
    Ok(Param { name, ty_name, size, entry_reg })
}

/// The parameters of a function that is entered at `low`, from its first child on.
pub fn read_params<U: DebugUnit>(u: &U, first: Option<usize>, low: u64) -> (r: Result<Vec<Param>, DwarfError>)
    ensures
        match r {
            Ok(list) => params_from(u.model(), first, low) == Ok::<Seq<ParamV>, Fault>(views(list@)),
            Err(e) => params_from(u.model(), first, low) == Err::<Seq<ParamV>, Fault>(fault(e)),
        },
{
    let mut params: Vec<Param> = Vec::new();
    let mut pos: Option<usize> = first;
    proof {
        assert(views(params@) =~= Seq::<ParamV>::empty());
        lemma_prefixed(Seq::empty(), Seq::empty(), params_from(u.model(), first, low));
    }
    while pos.is_some()
        invariant
            params_from(u.model(), first, low) == prefixed(views(params@), params_from(u.model(), pos, low)),
        decreases left_from(u.model(), pos),
    {
        let p: usize = pos.unwrap();
        let ghost before = views(params@);
        let shape = u.shape(p)?;
        if !shape.present {
            proof {
                lemma_prefixed(before, before, Ok(Seq::empty()));
            }
            return Ok(params);
        }
        if shape.tag == TAG_PARAMETER {
            let one = read_param(u, p, low)?;
            params.push(one);
            assert(views(params@) =~= before + seq![one@]);
        } else {
            assert(before + Seq::<ParamV>::empty() =~= before);
        }
        let next = u.sibling(p)?;
        proof {
            assert(later(u.model(), p, next) == next);
            let here = params_here(u.model(), p, shape, low)->Ok_0;
            lemma_prefixed(before, here, params_from(u.model(), next, low));
        }
        pos = next;
    }
    proof {
        lemma_prefixed(views(params@), Seq::empty(), Ok(Seq::empty()));
    }
    Ok(params)
}

} // verus!
