//! Typed properties of a schema.

use vstd::prelude::*;

use crate::error::{Errors, RIDBError};

verus! {

/// The runtime type a schema property declares.
#[derive(Clone, Copy, Debug, PartialEq, Eq, Structural)]
pub enum PropertyType {
    String,
    Number,
    Boolean,
    Array,
    Object,
}

/// A property within a schema: a type with optional constraints, nested
/// items for arrays, nested properties for objects, and an optional default.
#[derive(Debug)]
pub struct Property {
    pub property_type: PropertyType,
    pub items: Option<Vec<Property>>,
    pub max_items: Option<i32>,
    pub min_items: Option<i32>,
    pub properties: Option<Vec<(String, Property)>>,
    pub max_length: Option<i32>,
    pub min_length: Option<i32>,
    pub default: Option<crate::value::Value>,
}

/// The min/max rule shared by string lengths and array sizes: the lower
/// bound defaults to zero, the upper bound to none (written -1), the lower
/// bound may not be negative nor exceed a real upper bound.
pub open spec fn bounds_ok(min: Option<i32>, max: Option<i32>) -> bool {
    let mn: int = if min is Some {
        min->0 as int
    } else {
        0
    };
    let mx: int = if max is Some {
        max->0 as int
    } else {
        -1
    };
    mn >= 0 && !(mn > mx && mx >= 1)
}

/// Whether a property declaration is valid.
pub open spec fn prop_valid(p: Property) -> bool
    decreases p,
{
    match p.property_type {
        PropertyType::String => bounds_ok(p.min_length, p.max_length),
        PropertyType::Number => true,
        PropertyType::Boolean => true,
        PropertyType::Array => p.items is Some && p.items->0@.len() > 0 && prop_valid(
            p.items->0@[0],
        ) && bounds_ok(p.min_items, p.max_items),
        PropertyType::Object => p.properties is Some && p.properties->0@.len() > 0,
    }
}

/// The complaint an invalid property draws.
pub open spec fn prop_error_msg(p: Property) -> Seq<char>
    decreases p,
{
    match p.property_type {
        PropertyType::String => {
            let mn: int = if p.min_length is Some {
                p.min_length->0 as int
            } else {
                0
            };
            if mn < 0 {
                "Min property not valid"@
            } else {
                "Min higher than max"@
            }
        },
        PropertyType::Number => Seq::empty(),
        PropertyType::Boolean => Seq::empty(),
        PropertyType::Array => {
            if p.items is None {
                "Items is empty"@
            } else if p.items->0@.len() == 0 {
                "Invalid property items"@
            } else if !prop_valid(p.items->0@[0]) {
                prop_error_msg(p.items->0@[0])
            } else {
                let mn: int = if p.min_items is Some {
                    p.min_items->0 as int
                } else {
                    0
                };
                if mn < 0 {
                    "Min property not valid"@
                } else {
                    "Min higher than max"@
                }
            }
        },
        PropertyType::Object => "Properties empty"@,
    }
}

impl Property {
    /// Retrieves the type of the property.
    pub fn property_type(&self) -> (r: PropertyType)
        ensures
            r == self.property_type,
    {
        self.property_type
    }

    /// Checks whether the property declaration is valid; an invalid one
    /// draws a validation error naming the first broken rule.
    pub fn is_valid(&self) -> (r: Result<bool, RIDBError>)
        ensures
            r is Ok <==> prop_valid(*self),
            r is Ok ==> r->Ok_0 == true,
            r is Err ==> r->Err_0.code == Errors::ValidationError && r->Err_0.message@
                == "Validation Error: "@ + prop_error_msg(*self),
        decreases *self,
    {
        match self.property_type {
            PropertyType::String => {
                let mn: i32 = match self.min_length {
                    Some(v) => v,
                    None => 0,
                };
                let mx: i32 = match self.max_length {
                    Some(v) => v,
                    None => -1,
                };
                if mn < 0 {
                    Err(RIDBError::validation("Min property not valid"))
                } else if mn > mx && mx >= 1 {
                    Err(RIDBError::validation("Min higher than max"))
                } else {
                    Ok(true)
                }
            },
            PropertyType::Number => Ok(true),
            PropertyType::Boolean => Ok(true),
            PropertyType::Array => {
                match &self.items {
                    Some(items) => {
                        if items.len() == 0 {
                            Err(RIDBError::validation("Invalid property items"))
                        } else {
                            proof {
                                assert(decreases_to!(*self => self.items->0@[0]));
                            }
                            match items[0].is_valid() {
                                Ok(_) => {
                                    let mn: i32 = match self.min_items {
                                        Some(v) => v,
                                        None => 0,
                                    };
                                    let mx: i32 = match self.max_items {
                                        Some(v) => v,
                                        None => -1,
                                    };
                                    if mn < 0 {
                                        Err(RIDBError::validation("Min property not valid"))
                                    } else if mn > mx && mx >= 1 {
                                        Err(RIDBError::validation("Min higher than max"))
                                    } else {
                                        Ok(true)
                                    }
                                },
                                Err(e) => Err(e),
                            }
                        }
                    },
                    None => Err(RIDBError::validation("Items is empty")),
                }
            },
            PropertyType::Object => {
                match &self.properties {
                    Some(props) => {
                        if props.len() > 0 {
                            Ok(true)
                        } else {
                            Err(RIDBError::validation("Properties empty"))
                        }
                    },
                    None => Err(RIDBError::validation("Properties empty")),
                }
            },
        }
    }
}

} // verus!
