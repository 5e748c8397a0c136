//! The submitted puzzle form and its two-phase response protocol.
//!
//! The HTTP layer asks a response for its length before it asks for its
//! bytes. The first call runs parse, solve and render once and caches the
//! body in the form's `message` slot; the second call only reads that slot
//! back, never recomputing. A form whose length phase never ran has an
//! empty `message`, so the degraded body is empty rather than undefined.

use vstd::prelude::*;

use crate::instrumentation::{guard_scope_spec, Sm2Guard, Sm2Handle};
use crate::utility::{generate_html, response_body, schema_of};

verus! {

/// Form data for the HTTP POST carrying the nine rows of a 9x9 Sudoku
/// schema, one row per field, such as `5,3,_,_,7,_,_,_,_`, plus the cached
/// response body of the request.
pub struct FormValue {
    pub row_1: String,
    pub row_2: String,
    pub row_3: String,
    pub row_4: String,
    pub row_5: String,
    pub row_6: String,
    pub row_7: String,
    pub row_8: String,
    pub row_9: String,
    /// The response body once the length phase has rendered it; empty on a
    /// fresh form.
    pub message: String,
}

/// The nine row texts of a form, in order.
pub open spec fn rows_of(f: FormValue) -> Seq<Seq<char>> {
    seq![
        f.row_1@,
        f.row_2@,
        f.row_3@,
        f.row_4@,
        f.row_5@,
        f.row_6@,
        f.row_7@,
        f.row_8@,
        f.row_9@,
    ]
}

impl FormValue {
    /// A fresh submission: nine row texts and no cached body yet.
    pub fn new(
        row_1: String,
        row_2: String,
        row_3: String,
        row_4: String,
        row_5: String,
        row_6: String,
        row_7: String,
        row_8: String,
        row_9: String,
    ) -> (f: FormValue)
        ensures
            rows_of(f) == seq![
                row_1@,
                row_2@,
                row_3@,
                row_4@,
                row_5@,
                row_6@,
                row_7@,
                row_8@,
                row_9@,
            ],
            f.message@ == Seq::<char>::empty(),
    {
        let f = FormValue {
            row_1,
            row_2,
            row_3,
            row_4,
            row_5,
            row_6,
            row_7,
            row_8,
            row_9,
            message: String::new(),
        };
        proof {
            assert(rows_of(f) =~= seq![
                f.row_1@,
                f.row_2@,
                f.row_3@,
                f.row_4@,
                f.row_5@,
                f.row_6@,
                f.row_7@,
                f.row_8@,
                f.row_9@,
            ]);
        }
        f
    }

    /// The content type of the HTTP response.
    pub fn content_type(&self) -> (r: &'static str)
        ensures
            r@ == "text/html"@,
    {
        "text/html"
    }

    /// Phase one of the response: renders the body once — with the timing
    /// device enabled for the duration when it can be acquired — caches it
    /// in `message`, and returns its length. The body depends only on the
    /// row texts, never on the device.
    pub fn content_length(&mut self, handle: &mut Sm2Handle) -> (n: usize)
        ensures
            rows_of(*final(self)) == rows_of(*old(self)),
            response_body(schema_of(rows_of(*old(self))), final(self).message@),
            final(self).message@.len() > 0,
            n == final(self).message@.len(),
            *final(handle) == guard_scope_spec(*old(handle)),
    {
        let guard: Option<Sm2Guard> = if handle.get_shared_sm2() {
            Sm2Guard::new(&mut handle.sm2)
        } else {
            None
        };
        let html = generate_html(self);
        proof {
            crate::utility::lemma_response_nonempty(schema_of(rows_of(*old(self))), html@);
        }
        match guard {
            Some(g) => g.release(&mut handle.sm2),
            None => {},
        }
        html.as_str().unicode_len()
    }

    /// Phase two of the response: hands out the body cached by the length
    /// phase, without recomputing anything. On a fresh form the body is
    /// empty — the documented degraded outcome when phase one never ran.
    pub fn write_content(&self) -> (body: String)
        ensures
            body@ == self.message@,
    {
        self.message.clone()
    }
}

} // verus!
