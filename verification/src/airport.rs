//! Air facilities of the reference data and their runways.

use smallvec::SmallVec;
use vstd::prelude::*;

use crate::types::{PlaneFacilityType, RunwayWidth};
use crate::vector::{FromLoc, Point};

verus! {

/// A runway: its threshold and direction as a located vector, the names of
/// its two ends, and its size class.
#[derive(PartialEq, Debug)]
pub struct Runway {
    pub vec: FromLoc<Point>,
    pub direction: (String, String),
    pub length: RunwayWidth,
}

impl Clone for Runway {
    /// An equal runway.
    fn clone(&self) -> (r: Self)
        ensures
            r == *self,
    {
        Runway {
            vec: self.vec,
            direction: (self.direction.0.clone(), self.direction.1.clone()),
            length: self.length,
        }
    }
}

/// The runways of an airport, held in a `SmallVec` with room for one runway
/// inline. What it holds is known only through `runway_list`.
#[verifier::external_body]
#[derive(PartialEq, Debug)]
pub struct Runways {
    inner: SmallVec<[Runway; 1]>,
}

/// The runways that a list of runways holds, in order.
pub uninterp spec fn runway_list(v: Runways) -> Seq<Runway>;

/// `SmallVec::from_vec`: the list that holds the items of `v`, in order.
#[verifier::external_body]
fn runways_from_vec(v: Vec<Runway>) -> (r: Runways)
    ensures
        runway_list(r) == v@,
{
    Runways { inner: SmallVec::from_vec(v) }
}

/// `SmallVec::as_slice`: the runways held, in order, as a slice.
#[verifier::external_body]
fn runways_as_slice(v: &Runways) -> (r: &[Runway])
    ensures
        r@ == runway_list(*v),
{
    v.inner.as_slice()
}

impl View for Runways {
    type V = Seq<Runway>;

    /// The runways held, in order.
    open spec fn view(&self) -> Seq<Runway> {
        runway_list(*self)
    }
}

impl Runways {
    /// The list that holds the runways of `v`, in order.
    pub fn from_vec(v: Vec<Runway>) -> (r: Runways)
        ensures
            r@ == v@,
    {
        runways_from_vec(v)
    }

    /// The runways as a slice.
    pub fn as_slice(&self) -> (r: &[Runway])
        ensures
            r@ == self@,
    {
        runways_as_slice(self)
    }

    /// The number of runways.
    pub fn len(&self) -> (n: usize)
        ensures
            n == self@.len(),
    {
        runways_as_slice(self).len()
    }

    /// The runway at position `i`, if there is one.
    pub fn get(&self, i: usize) -> (r: Option<&Runway>)
        ensures
            r == if i < self@.len() {
                Some(&self@[i as int])
            } else {
                None
            },
    {
        let all = runways_as_slice(self);
        if i < all.len() {
            Some(&all[i])
        } else {
            None
        }
    }
}

impl Clone for Runways {
    /// A list of equal runways.
    fn clone(&self) -> (r: Self)
        ensures
            r@ == self@,
    {
        let all = runways_as_slice(self);
        let mut copies: Vec<Runway> = Vec::new();
        let mut i: usize = 0;
        while i < all.len()
            invariant
                i <= all.len(),
                copies@ == all@.take(i as int),
            decreases all.len() - i,
        {
            copies.push(all[i].clone());
            proof {
                assert(all@.take(i + 1) =~= all@.take(i as int).push(all@[i as int]));
            }
            i += 1;
        }
        proof {
            assert(all@.take(all.len() as int) =~= all@);
        }
        runways_from_vec(copies)
    }
}

/// A place where aircraft land.
#[derive(Clone, PartialEq, Debug)]
pub enum AirFacility {
    Heliport { code: String, pad_coord: Point },
    AirshipTerminal { code: String, pad_coord: Point },
    Airport { code: String, ty: PlaneFacilityType, runways: Runways },
}

impl AirFacility {
    /// The facility's code.
    #[must_use]
    pub fn code(&self) -> (r: &String)
        ensures
            *r == match *self {
                AirFacility::Heliport { code, .. } => code,
                AirFacility::AirshipTerminal { code, .. } => code,
                AirFacility::Airport { code, .. } => code,
            },
    {
        match self {
            AirFacility::Heliport { code, .. } => code,
            AirFacility::AirshipTerminal { code, .. } => code,
            AirFacility::Airport { code, .. } => code,
        }
    }

    /// The position that stands for the facility: the pad of a heliport or
    /// airship terminal, the threshold of an airport's second runway.
    #[must_use]
    pub fn main_coord(&self) -> (r: Option<&Point>)
        ensures
            match *self {
                AirFacility::Heliport { pad_coord, .. } => r == Some(&pad_coord),
                AirFacility::AirshipTerminal { pad_coord, .. } => r == Some(&pad_coord),
                AirFacility::Airport { runways, .. } => if runways@.len() > 1 {
                    r == Some(&runways@[1].vec.tail)
                } else {
                    r is None
                },
            },
    {
        match self {
            AirFacility::Heliport { pad_coord, .. } => Some(pad_coord),
            AirFacility::AirshipTerminal { pad_coord, .. } => Some(pad_coord),
            AirFacility::Airport { runways, .. } => {
                match runways.get(1) {
                    Some(runway) => Some(&runway.vec.tail),
                    None => None,
                }
            },
        }
    }
}

} // verus!
