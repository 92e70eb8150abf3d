//! HTTP request methods as the host names them: by small integer cells.

use vstd::prelude::*;

verus! {

/// The HTTP methods a request may use.
#[derive(Debug, Clone, Copy, PartialEq, Eq, Structural)]
pub enum Method {
    HttpMethodGet,
    HttpMethodHead,
    HttpMethodPost,
    HttpMethodPut,
    HttpMethodDelete,
    HttpMethodConnect,
    HttpMethodOptions,
    HttpMethodTrace,
    HttpMethodPatch,
}

impl Method {
    /// Decodes a host cell; `None` on any cell outside the method range.
    pub fn from_raw(cell: i32) -> (r: Option<Method>)
        ensures
            r == match cell {
                0 => Some(Method::HttpMethodGet),
                1 => Some(Method::HttpMethodHead),
                2 => Some(Method::HttpMethodPost),
                3 => Some(Method::HttpMethodPut),
                4 => Some(Method::HttpMethodDelete),
                5 => Some(Method::HttpMethodConnect),
                6 => Some(Method::HttpMethodOptions),
                7 => Some(Method::HttpMethodTrace),
                8 => Some(Method::HttpMethodPatch),
                _ => None::<Method>,
            },
    {
        match cell {
            0 => Some(Method::HttpMethodGet),
            1 => Some(Method::HttpMethodHead),
            2 => Some(Method::HttpMethodPost),
            3 => Some(Method::HttpMethodPut),
            4 => Some(Method::HttpMethodDelete),
            5 => Some(Method::HttpMethodConnect),
            6 => Some(Method::HttpMethodOptions),
            7 => Some(Method::HttpMethodTrace),
            8 => Some(Method::HttpMethodPatch),
            _ => None,
        }
    }

    /// Encodes this method as its host cell.
    pub fn as_cell(&self) -> (r: i32)
        ensures
            r == match *self {
                Method::HttpMethodGet => 0int,
                Method::HttpMethodHead => 1,
                Method::HttpMethodPost => 2,
                Method::HttpMethodPut => 3,
                Method::HttpMethodDelete => 4,
                Method::HttpMethodConnect => 5,
                Method::HttpMethodOptions => 6,
                Method::HttpMethodTrace => 7,
                Method::HttpMethodPatch => 8,
            },
            0 <= r <= 8,
    {
        match self {
            Method::HttpMethodGet => 0,
            Method::HttpMethodHead => 1,
            Method::HttpMethodPost => 2,
            Method::HttpMethodPut => 3,
            Method::HttpMethodDelete => 4,
            Method::HttpMethodConnect => 5,
            Method::HttpMethodOptions => 6,
            Method::HttpMethodTrace => 7,
            Method::HttpMethodPatch => 8,
        }
    }

}

} // verus!
