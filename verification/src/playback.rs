//! The protobuf-independent parser driver over one validated demo.

use vstd::prelude::*;

use crate::demo::{construct_result, Demo, DemoIndex, index_of_items, item_error_is};
use crate::error::Error;
use crate::limits::{DecodeLimits, LimitsModel};

verus! {

/// Borrowed neutral parser driver for one validated PBDEMS2 file.
#[derive(Debug, Clone, Copy)]
pub struct DemoParser<'a> {
    demo: Demo<'a>,
}

impl<'a> DemoParser<'a> {
    /// The demo this parser drives.
    pub closed spec fn spec_demo(&self) -> Demo<'a> {
        self.demo
    }

    /// Validate a complete demo using default limits.
    pub fn new(data: &'a [u8]) -> (r: Result<Self, Error>)
        ensures
            construct_result(data@, parser_header(r)),
            r matches Ok(p) ==> p.spec_demo().wf() && p.spec_demo().spec_data() == data@
                && p.spec_demo().spec_limits() == crate::limits::default_limits(),
    {
        match Demo::new(data) {
            Ok(demo) => Ok(DemoParser { demo }),
            Err(e) => Err(e),
        }
    }

    /// Validate a complete demo using explicit limits.
    pub fn with_limits(data: &'a [u8], limits: DecodeLimits) -> (r: Result<Self, Error>)
        ensures
            construct_result(data@, parser_header(r)),
            r matches Ok(p) ==> p.spec_demo().wf() && p.spec_demo().spec_data() == data@
                && p.spec_demo().spec_limits() == limits@,
    {
        match Demo::with_limits(data, limits) {
            Ok(demo) => Ok(DemoParser { demo }),
            Err(e) => Err(e),
        }
    }

    /// The underlying command-stream view.
    pub fn demo(&self) -> (r: &Demo<'a>)
        ensures
            *r == self.spec_demo(),
    {
        &self.demo
    }

    /// Build the header-only seek index.
    pub fn index(&self) -> (r: Result<DemoIndex, Error>)
        requires
            self.spec_demo().wf(),
        ensures
            match index_of_items(self.spec_demo().items()) {
                Ok(st) => r matches Ok(ix) && ix.spec_full_packets() == st.full_packets
                    && ix.spec_distinct_ticks() == st.distinct_ticks && ix.spec_stream_start()
                    == st.stream_start,
                Err((offset, header, failure)) => r matches Err(e) && item_error_is(e, offset, header, failure),
            },
    {
        self.demo.index()
    }
}

/// The header of the demo a parser was built on, or the error that refused it.
pub open spec fn parser_header<'a>(r: Result<DemoParser<'a>, Error>) -> Result<crate::demo::DemoHeader, Error> {
    match r {
        Ok(p) => Ok(p.spec_demo().spec_header()),
        Err(e) => Err(e),
    }
}

} // verus!
