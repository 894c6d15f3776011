//! Rendering a pipeline through the Python DSL: the registry entries it
//! lists and the error it reports when the interpreter fails.
use vstd::prelude::*;
use crate::error::HmError;
use vstd::utf8::{length_of_first_scalar, pop_first_scalar, valid_first_scalar, valid_utf8};

verus! {

/// One `@hm.pipeline` registration.
#[derive(Debug)]
pub struct PipelineMeta {
    /// Pipeline slug.
    pub slug: String,
    /// Pipeline name.
    pub name: String,
}

/// The slugs of the registrations, in order.
pub fn slugs_of(metas: Vec<PipelineMeta>) -> (slugs: Vec<String>)
    ensures
        slugs@.len() == metas@.len(),
        forall|i: int| 0 <= i < metas@.len() ==> (#[trigger] slugs@[i])@ == metas@[i].slug@,
{
    let mut slugs: Vec<String> = Vec::new();
    let mut i: usize = 0;
    while i < metas.len()
        invariant
            i <= metas@.len(),
            slugs@.len() == i,
            forall|j: int| 0 <= j < i ==> (#[trigger] slugs@[j])@ == metas@[j].slug@,
        decreases metas@.len() - i,
    {
        slugs.push(metas[i].slug.clone());
        i = i + 1;
    }
    slugs
}

/// The Python module search path: the DSL package, then the repo's
/// `.harmont` directory.
pub fn python_path(cidsl_py: &str, harmont_dir: &str) -> (s: String)
    ensures
        s@ == cidsl_py@ + ":"@ + harmont_dir@,
{
    String::from_str(cidsl_py).concat(":").concat(harmont_dir)
}

/// The error for a Python interpreter that exited unsuccessfully, given
/// its exit status and its standard error, both as text.
pub fn python_failure(status: &str, stderr: &str) -> (e: HmError)
    ensures
        e matches HmError::PipelineRender(m) && m@ == "python3 exited "@ + status@ + ": "@ + stderr@,
{
    HmError::PipelineRender(String::from_str("python3 exited ").concat(status).concat(": ").concat(stderr))
}

} // verus!

verus! {

/// The length of the well-formed UTF-8 encoding of one scalar that starts
/// at `i`, or `None` when none starts there.
fn first_scalar_len(bytes: &[u8], i: usize) -> (r: Option<usize>)
    requires
        i < bytes@.len(),
    ensures
        ({
            let s = bytes@.subrange(i as int, bytes@.len() as int);
            match r {
                Some(l) => valid_first_scalar(s) && l == length_of_first_scalar(s),
                None => !valid_first_scalar(s),
            }
        }),
{
    let ghost s = bytes@.subrange(i as int, bytes@.len() as int);
    let n = bytes.len() - i;
    let b0 = bytes[i];
    assert(s[0] == b0);
    if b0 <= 0x7f {
        let cp: u32 = (b0 & 0x7f) as u32;
        if 0xD800 <= cp && cp <= 0xDFFF { None } else { Some(1) }
    } else if 0xc0 <= b0 && b0 <= 0xdf {
        if n < 2 {
            return None;
        }
        let b1 = bytes[i + 1];
        assert(s[1] == b1);
        if !(0x80 <= b1 && b1 <= 0xbf) {
            return None;
        }
        let cp: u32 = (((b0 & 0x1f) as u32) << 6) | ((b1 & 0x3f) as u32);
        if 0x80 <= cp && !(0xD800 <= cp && cp <= 0xDFFF) { Some(2) } else { None }
    } else if 0xe0 <= b0 && b0 <= 0xef {
        if n < 3 {
            return None;
        }
        let b1 = bytes[i + 1];
        let b2 = bytes[i + 2];
        assert(s[1] == b1 && s[2] == b2);
        if !(0x80 <= b1 && b1 <= 0xbf && 0x80 <= b2 && b2 <= 0xbf) {
            return None;
        }
        let cp: u32 = (((b0 & 0x0f) as u32) << 12) | (((b1 & 0x3f) as u32) << 6) | ((b2 & 0x3f) as u32);
        if 0x800 <= cp && !(0xD800 <= cp && cp <= 0xDFFF) { Some(3) } else { None }
    } else if 0xf0 <= b0 && b0 <= 0xf7 {
        if n < 4 {
            return None;
        }
        let b1 = bytes[i + 1];
        let b2 = bytes[i + 2];
        let b3 = bytes[i + 3];
        assert(s[1] == b1 && s[2] == b2 && s[3] == b3);
        if !(0x80 <= b1 && b1 <= 0xbf && 0x80 <= b2 && b2 <= 0xbf && 0x80 <= b3 && b3 <= 0xbf) {
            return None;
        }
        let cp: u32 = (((b0 & 0x07) as u32) << 18) | (((b1 & 0x3f) as u32) << 12) | (((b2 & 0x3f) as u32) << 6)
            | ((b3 & 0x3f) as u32);
        if 0x10000 <= cp && cp <= 0x10ffff && !(0xD800 <= cp && cp <= 0xDFFF) { Some(4) } else { None }
    } else {
        None
    }
}

/// Whether `bytes` are valid UTF-8.
pub fn utf8_valid(bytes: &[u8]) -> (b: bool)
    ensures
        b == valid_utf8(bytes@),
{
    let mut i: usize = 0;
    assert(bytes@.subrange(0, bytes@.len() as int) =~= bytes@);
    while i < bytes.len()
        invariant
            i <= bytes@.len(),
            valid_utf8(bytes@) == valid_utf8(bytes@.subrange(i as int, bytes@.len() as int)),
        decreases bytes@.len() - i,
    {
        let ghost s = bytes@.subrange(i as int, bytes@.len() as int);
        match first_scalar_len(bytes, i) {
            None => {
                return false;
            },
            Some(l) => {
                proof {
                    assert(pop_first_scalar(s) =~= bytes@.subrange(i + l, bytes@.len() as int));
                }
                i = i + l;
            },
        }
    }
    assert(bytes@.subrange(i as int, bytes@.len() as int) =~= Seq::<u8>::empty());
    true
}

/// Checks the rendered pipeline the interpreter printed: it must be UTF-8
/// text.
pub fn check_rendered(bytes: &[u8]) -> (r: Result<(), HmError>)
    ensures
        r is Ok <==> valid_utf8(bytes@),
        r matches Err(e) ==> e matches HmError::PipelineRender(m) && m@ == "python3 output is not valid UTF-8"@,
{
    if utf8_valid(bytes) {
        Ok(())
    } else {
        Err(HmError::PipelineRender(String::from_str("python3 output is not valid UTF-8")))
    }
}

} // verus!
