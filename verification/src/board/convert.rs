//! Positions to and from pairs of integers.

use super::Position;
use std::num::TryFromIntError;
use vstd::prelude::*;
use vstd::std_specs::convert::{FromSpec, FromSpecImpl, TryFromSpecImpl, TryIntoSpec};

verus! {

/// A position as the pair of its coordinates, each widened as its type
/// widens a `u8`.
impl<T, U> From<Position> for (T, U) where T: From<u8>, U: From<u8> {
    fn from(p: Position) -> (r: Self) {
        (T::from(p.x), U::from(p.y))
    }
}

impl<T, U> FromSpecImpl<Position> for (T, U) where T: From<u8>, U: From<u8> {
    open spec fn obeys_from_spec() -> bool {
        T::obeys_from_spec() && U::obeys_from_spec()
    }

    open spec fn from_spec(p: Position) -> Self {
        (T::from_spec(p.x), U::from_spec(p.y))
    }
}

/// The position with the coordinates of a pair, or the error of the first
/// coordinate that does not fit a `u8`.
impl<T, U> TryFrom<(T, U)> for Position where
    T: TryInto<u8, Error = TryFromIntError>,
    U: TryInto<u8, Error = TryFromIntError>,
 {
    type Error = TryFromIntError;

    fn try_from(xy: (T, U)) -> (r: Result<Self, TryFromIntError>) {
        let x = match xy.0.try_into() {
            Ok(x) => x,
            Err(e) => {
                return Err(e);
            },
        };
        let y = match xy.1.try_into() {
            Ok(y) => y,
            Err(e) => {
                return Err(e);
            },
        };
        Ok(Position { x, y })
    }
}

impl<T, U> TryFromSpecImpl<(T, U)> for Position where
    T: TryInto<u8, Error = TryFromIntError>,
    U: TryInto<u8, Error = TryFromIntError>,
 {
    open spec fn obeys_try_from_spec() -> bool {
        T::obeys_try_into_spec() && U::obeys_try_into_spec()
    }

    open spec fn try_from_spec(xy: (T, U)) -> Result<Self, TryFromIntError> {
        match xy.0.try_into_spec() {
            Ok(x) => match xy.1.try_into_spec() {
                Ok(y) => Ok(Position { x, y }),
                Err(e) => Err(e),
            },
            Err(e) => Err(e),
        }
    }
}

} // verus!
