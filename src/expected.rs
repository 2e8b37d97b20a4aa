use vstd::prelude::*;

verus! {

/// The outcome of holding a captured frame against the expected image.
#[derive(Clone, Copy, Debug, PartialEq, Eq, Structural)]
pub enum CaptureVerdict {
    /// The capture is the expected image, byte for byte.
    Matches,
    /// There is no expected image.
    MissingExpected,
    /// The expected image does not hold `width * height * 4` bytes.
    ExpectedSizeMismatch,
    /// The capture does not hold `width * height * 4` bytes.
    ActualSizeMismatch,
    /// Both have the right size, and some byte differs.
    Differs,
}

/// The path of the expected image named `name`.
pub open spec fn expected_image_path_spec(name: Seq<char>) -> Seq<char> {
    "test/assets/expected_images/test_"@ + name + ".png"@
}

/// The path of the expected image named `name`.
pub fn get_expected_image_path(name: &str) -> (p: String)
    ensures
        p@ == expected_image_path_spec(name@),
{
    let p = String::from_str("test/assets/expected_images/test_");
    let p = p.concat(name);
    p.concat(".png")
}

/// The name under which a capture that did not match is kept beside the
/// expected image named `name`.
pub fn actual_image_name(name: &str) -> (p: String)
    ensures
        p@ == name@ + "_ACTUAL"@,
{
    let p = String::from_str(name);
    p.concat("_ACTUAL")
}

/// Holds an RGBA capture of a `width` by `height` surface against the
/// expected image, if there is one.
pub fn compare_capture(expected: &Option<Vec<u8>>, actual: &Vec<u8>, width: u32, height: u32) -> (v: CaptureVerdict)
    ensures
        expected is None ==> v == CaptureVerdict::MissingExpected,
        expected matches Some(e) ==> {
            let size = width as int * height as int * 4;
            &&& e@.len() != size ==> v == CaptureVerdict::ExpectedSizeMismatch
            &&& e@.len() == size && actual@.len() != size ==> v == CaptureVerdict::ActualSizeMismatch
            &&& e@.len() == size && actual@.len() == size && e@ == actual@ ==> v == CaptureVerdict::Matches
            &&& e@.len() == size && actual@.len() == size && e@ != actual@ ==> v == CaptureVerdict::Differs
        },
{
    match expected {
        None => CaptureVerdict::MissingExpected,
        Some(e) => {
            let w128 = width as u128;
            let h128 = height as u128;
            assert(w128 * h128 <= 0xffff_ffff_ffff_ffff) by (nonlinear_arith)
                requires w128 <= 0xffff_ffff, h128 <= 0xffff_ffff;
            let size: u128 = w128 * h128 * 4;
            if e.len() as u128 != size {
                return CaptureVerdict::ExpectedSizeMismatch;
            }
            if actual.len() as u128 != size {
                return CaptureVerdict::ActualSizeMismatch;
            }
            let n = e.len();
            let mut i: usize = 0;
            while i < n
                invariant
                    *expected == Some(*e),
                    e@.len() == width as int * height as int * 4,
                    n == e@.len(),
                    n == actual@.len(),
                    i <= n,
                    forall|j: int| 0 <= j < i ==> e@[j] == actual@[j],
                decreases n - i,
            {
                if e[i] != actual[i] {
                    assert(e@[i as int] != actual@[i as int]);
                    return CaptureVerdict::Differs;
                }
                i = i + 1;
            }
            assert(e@ =~= actual@);
            CaptureVerdict::Matches
        },
    }
}

/// Whether the capture should be kept for inspection: there is no expected
/// image, or the capture differs from it.
pub fn should_keep_actual(expected: &Option<Vec<u8>>, actual: &Vec<u8>) -> (b: bool)
    ensures
        b == match expected {
            None => true,
            Some(e) => e@ != actual@,
        },
{
    match expected {
        None => true,
        Some(e) => {
            if e.len() != actual.len() {
                return true;
            }
            let n = e.len();
            let mut i: usize = 0;
            while i < n
                invariant
                    *expected == Some(*e),
                    n == e@.len(),
                    n == actual@.len(),
                    i <= n,
                    forall|j: int| 0 <= j < i ==> e@[j] == actual@[j],
                decreases n - i,
            {
                if e[i] != actual[i] {
                    assert(e@[i as int] != actual@[i as int]);
                    return true;
                }
                i = i + 1;
            }
            assert(e@ =~= actual@);
            false
        },
    }
}

} // verus!
