//! The two request handlers and the response descriptor they produce: a GET
//! handler that serves the static HTML form, and a POST handler that decodes
//! the form body, validates the posted numbers, and reduces them to their
//! greatest common divisor.  A router maps a method and path to the handler
//! the pair names.

use vstd::prelude::*;

use crate::form::{parse_form, parse_form_spec, values_of};
use crate::gcd::{gcd, gcd_nat, lemma_gcd_zero_identity};
use crate::text::{ascii_bytes, dec_text, dec_val, is_u64_text, parse_u64, text_bytes, u64_to_dec};

verus! {

/// The byte value of a line feed.
pub const NEWLINE: u8 = 10;

/// The one content type the handlers ever set: `text/html; charset=utf-8`.
#[derive(Clone, Copy, Debug, PartialEq, Eq, Structural)]
pub enum ContentType {
    HtmlUtf8,
}

/// What a handler hands back to be written to the wire: a status code, a
/// content type where one is set, and the body text as bytes.
#[derive(Debug)]
pub struct Response {
    pub status: u16,
    pub content_type: Option<ContentType>,
    pub body: Vec<u8>,
}

fn bad_request(body: Vec<u8>) -> (r: Response)
    ensures
        r.status == 400,
        r.content_type is None,
        r.body@ == body@,
{
    Response { status: 400, content_type: None, body }
}

fn ok_html(body: Vec<u8>) -> (r: Response)
    ensures
        r.status == 200,
        r.content_type == Some(ContentType::HtmlUtf8),
        r.body@ == body@,
{
    Response { status: 200, content_type: Some(ContentType::HtmlUtf8), body }
}

/// The fixed message sent when the body is not valid form data.
pub open spec fn msg_form_err() -> Seq<u8> {
    ascii_bytes("Error parsing form data: invalid percent escape\n"@)
}

fn msg_form_err_vec() -> (r: Vec<u8>)
    ensures
        r@ == msg_form_err(),
{
    let s = "Error parsing form data: invalid percent escape\n";
    proof {
        reveal_strlit("Error parsing form data: invalid percent escape\n");
    }
    text_bytes(s)
}

/// The fixed message sent when the required field is missing.
pub open spec fn msg_no_numbers() -> Seq<u8> {
    ascii_bytes("No numbers (\"n\") in form data\n"@)
}

fn msg_no_numbers_vec() -> (r: Vec<u8>)
    ensures
        r@ == msg_no_numbers(),
{
    let s = "No numbers (\"n\") in form data\n";
    proof {
        reveal_strlit("No numbers (\"n\") in form data\n");
    }
    text_bytes(s)
}

/// The message sent when a posted value is not a `u64`, naming the raw value.
pub open spec fn msg_bad_number(t: Seq<u8>) -> Seq<u8> {
    ascii_bytes("Bad number n="@) + t + seq![NEWLINE]
}

fn msg_bad_number_vec(t: &[u8]) -> (r: Vec<u8>)
    ensures
        r@ == msg_bad_number(t@),
{
    let s = "Bad number n=";
    proof {
        reveal_strlit("Bad number n=");
    }
    let mut r = text_bytes(s);
    let mut tok = vstd::slice::slice_to_vec(t);
    r.append(&mut tok);
    r.push(NEWLINE);
    proof {
        assert(r@ =~= msg_bad_number(t@));
    }
    r
}

/// The success body: `GCD is ` followed by the result in decimal.
pub open spec fn msg_gcd_is(g: nat) -> Seq<u8> {
    ascii_bytes("GCD is "@) + dec_text(g)
}

fn msg_gcd_is_vec(g: u64) -> (r: Vec<u8>)
    ensures
        r@ == msg_gcd_is(g as nat),
{
    let s = "GCD is ";
    proof {
        reveal_strlit("GCD is ");
    }
    let mut r = text_bytes(s);
    let mut digits = u64_to_dec(g);
    r.append(&mut digits);
    proof {
        assert(r@ =~= msg_gcd_is(g as nat));
    }
    r
}

/// The left-to-right reduction of the raw field values: the greatest common
/// divisor of the numbers they denote, or the first value that is not the
/// text of a `u64`.  Zero operands fold by `gcd_nat`'s identities, and the
/// reduction of no values at all is zero.
pub open spec fn fold_tokens(vals: Seq<Seq<u8>>) -> Result<nat, Seq<u8>>
    decreases vals.len(),
{
    if vals.len() == 0 {
        Result::<nat, Seq<u8>>::Ok(0)
    } else {
        match fold_tokens(vals.drop_last()) {
            Result::Ok(g) => if is_u64_text(vals.last()) {
                Result::Ok(gcd_nat(g, dec_val(vals.last())))
            } else {
                Result::Err(vals.last())
            },
            Result::Err(t) => Result::Err(t),
        }
    }
}

/// Once a prefix of the values has failed, the whole reduction fails the
/// same way.
proof fn lemma_fold_tokens_err(vals: Seq<Seq<u8>>, i: int)
    requires
        0 <= i <= vals.len(),
        fold_tokens(vals.take(i)) is Err,
    ensures
        fold_tokens(vals) == fold_tokens(vals.take(i)),
    decreases vals.len() - i,
{
    if i < vals.len() {
        assert(vals.take(i + 1).drop_last() =~= vals.take(i));
        lemma_fold_tokens_err(vals, i + 1);
    } else {
        assert(vals.take(i) =~= vals);
    }
}

/// The reduction of a single value is that value itself.
pub proof fn lemma_fold_tokens_singleton(t: Seq<u8>)
    requires
        is_u64_text(t),
    ensures
        fold_tokens(seq![t]) == Result::<nat, Seq<u8>>::Ok(dec_val(t)),
{
    let vals = seq![t];
    assert(vals.drop_last() =~= Seq::<Seq<u8>>::empty());
    assert(fold_tokens(Seq::<Seq<u8>>::empty()) == Result::<nat, Seq<u8>>::Ok(0));
    assert(vals.last() == t);
    lemma_gcd_zero_identity(dec_val(t));
}

/// One step of the reduction.  The reducer's precondition bars zero
/// operands, so zero is folded here by the identities `gcd(0, v) == v` and
/// `gcd(g, 0) == g` rather than rejected.
fn gcd_step(g: u64, v: u64) -> (r: u64)
    ensures
        r as nat == gcd_nat(g as nat, v as nat),
{
    if v == 0 {
        proof {
            lemma_gcd_zero_identity(g as nat);
        }
        g
    } else if g == 0 {
        proof {
            lemma_gcd_zero_identity(v as nat);
        }
        v
    } else {
        gcd(g, v)
    }
}

/// What the POST handler answers for a given body: status code, whether the
/// HTML content type is set, and the body text.
pub open spec fn post_gcd_model(body: Seq<u8>) -> (int, bool, Seq<u8>) {
    match parse_form_spec(body) {
        None => (400, false, msg_form_err()),
        Some(pairs) => {
            let vals = values_of(pairs, ascii_bytes("n"@));
            if vals.len() == 0 {
                (400, false, msg_no_numbers())
            } else {
                match fold_tokens(vals) {
                    Result::Ok(g) => (200, true, msg_gcd_is(g)),
                    Result::Err(t) => (400, false, msg_bad_number(t)),
                }
            }
        },
    }
}

/// Handle a POST of form data to the GCD calculator.
pub fn post_gcd(body: &[u8]) -> (r: Response)
    ensures
        r.status as int == post_gcd_model(body@).0,
        r.content_type == (if post_gcd_model(body@).1 {
            Some(ContentType::HtmlUtf8)
        } else {
            None::<ContentType>
        }),
        r.body@ == post_gcd_model(body@).2,
{
    let form = match parse_form(body) {
        Some(f) => f,
        None => {
            return bad_request(msg_form_err_vec());
        },
    };
    let name = {
        let s = "n";
        proof {
            reveal_strlit("n");
        }
        text_bytes(s)
    };
    let values = match form.get(name.as_slice()) {
        Some(vs) => vs,
        None => {
            return bad_request(msg_no_numbers_vec());
        },
    };
    let ghost vals = values_of(form@, ascii_bytes("n"@));
    let mut result: Option<u64> = None;
    let mut i: usize = 0;
    proof {
        assert(vals.take(0) =~= Seq::<Seq<u8>>::empty());
    }
    while i < values.len()
        invariant
            0 <= i <= values@.len(),
            parse_form_spec(body@) == Some(form@),
            vals == values_of(form@, ascii_bytes("n"@)),
            vals.len() > 0,
            values@.len() == vals.len(),
            forall|k: int| 0 <= k < vals.len() ==> #[trigger] values@[k]@ == vals[k],
            match result {
                Some(g) => i > 0 && fold_tokens(vals.take(i as int)) == Result::<
                    nat,
                    Seq<u8>,
                >::Ok(g as nat),
                None => i == 0 && fold_tokens(vals.take(0)) == Result::<nat, Seq<u8>>::Ok(0),
            },
        decreases values@.len() - i,
    {
        proof {
            assert(vals.take(i + 1).drop_last() =~= vals.take(i as int));
            assert(vals.take(i + 1).last() == vals[i as int]);
        }
        let v = match parse_u64(values[i].as_slice()) {
            Some(v) => v,
            None => {
                proof {
                    assert(fold_tokens(vals.take(i + 1)) == Result::<nat, Seq<u8>>::Err(
                        vals[i as int],
                    ));
                    lemma_fold_tokens_err(vals, i + 1);
                }
                return bad_request(msg_bad_number_vec(values[i].as_slice()));
            },
        };
        result = match result {
            None => {
                proof {
                    lemma_gcd_zero_identity(v as nat);
                }
                Some(v)
            },
            Some(g) => Some(gcd_step(g, v)),
        };
        i += 1;
    }
    match result {
        None => {
            // The lookup yields at least one value, so this branch cannot be
            // reached; it mirrors the handler's final guard all the same.
            bad_request({
                let s = "No numbers given\n";
                proof {
                    reveal_strlit("No numbers given\n");
                }
                text_bytes(s)
            })
        },
        Some(g) => {
            proof {
                assert(vals.take(vals.len() as int) =~= vals);
            }
            ok_html(msg_gcd_is_vec(g))
        },
    }
}

/// The static page served on GET: a form posting to `/gcd` with two inputs
/// that share the field name `n`.
pub open spec fn form_page() -> Seq<u8> {
    ascii_bytes(
        "<title>GCD Calculator</title>\n<form action=\"/gcd\" method=\"post\">\n<input type=\"text\" name=\"n\"/>\n<input type=\"text\" name=\"n\"/>\n<button type=\"submit\">Compute GCD</button>\n</form>\n"@,
    )
}

/// Serve the GCD calculator's form.
pub fn get_form() -> (r: Response)
    ensures
        r.status == 200,
        r.content_type == Some(ContentType::HtmlUtf8),
        r.body@ == form_page(),
{
    let s =
        "<title>GCD Calculator</title>\n<form action=\"/gcd\" method=\"post\">\n<input type=\"text\" name=\"n\"/>\n<input type=\"text\" name=\"n\"/>\n<button type=\"submit\">Compute GCD</button>\n</form>\n";
    proof {
        reveal_strlit(
            "<title>GCD Calculator</title>\n<form action=\"/gcd\" method=\"post\">\n<input type=\"text\" name=\"n\"/>\n<input type=\"text\" name=\"n\"/>\n<button type=\"submit\">Compute GCD</button>\n</form>\n",
        );
    }
    ok_html(text_bytes(s))
}

/// A request method the router distinguishes.
#[derive(Clone, Copy, Debug, PartialEq, Eq, Structural)]
pub enum Method {
    Get,
    Post,
}

/// What the router answers: the form page on GET `/`, the reduction on POST
/// `/gcd`, and nothing on any other method or path.
pub open spec fn route_model(method: Method, path: Seq<u8>, body: Seq<u8>) -> Option<
    (int, bool, Seq<u8>),
> {
    if method is Get && path == ascii_bytes("/"@) {
        Some((200int, true, form_page()))
    } else if method is Post && path == ascii_bytes("/gcd"@) {
        Some(post_gcd_model(body))
    } else {
        None
    }
}

/// Route a request to its handler; `None` is a path the server does not
/// serve.
pub fn handle_request(method: Method, path: &[u8], body: &[u8]) -> (r: Option<Response>)
    ensures
        match r {
            Some(resp) => route_model(method, path@, body@) == Some(
                (resp.status as int, resp.content_type == Some(ContentType::HtmlUtf8), resp.body@),
            ),
            None => route_model(method, path@, body@) is None,
        },
{
    let root = {
        let s = "/";
        proof {
            reveal_strlit("/");
        }
        text_bytes(s)
    };
    let gcd_path = {
        let s = "/gcd";
        proof {
            reveal_strlit("/gcd");
        }
        text_bytes(s)
    };
    match method {
        Method::Get => {
            if crate::text::bytes_eq(path, root.as_slice()) {
                Some(get_form())
            } else {
                None
            }
        },
        Method::Post => {
            if crate::text::bytes_eq(path, gcd_path.as_slice()) {
                Some(post_gcd(body))
            } else {
                None
            }
        },
    }
}

} // verus!

