use vstd::prelude::*;
use vstd::string::StringSliceAdditionalSpecFns;

verus! {

/// The built-in font faces: a family at one of four sizes.
#[derive(Debug, Clone, Copy, PartialEq, Eq, Structural)]
pub enum FontFace {
    Arial18,
    Arial24,
    Arial30,
    Arial36,
    Atkinson18,
    Atkinson24,
    Atkinson30,
    Atkinson36,
    FsBrabo18,
    FsBrabo24,
    FsBrabo30,
    FsBrabo36,
    Georgia18,
    Georgia24,
    Georgia30,
    Georgia36,
    Palatino18,
    Palatino24,
    Palatino30,
    Palatino36,
    Times18,
    Times24,
    Times30,
    Times36,
}

/// The face that a name selects; a name that is not known selects `Times18`.
pub open spec fn face_named(name: Seq<u8>) -> FontFace {
    if name == seq![97u8, 114u8, 105u8, 97u8, 108u8, 49u8, 56u8] {
        FontFace::Arial18
    } else if name == seq![97u8, 114u8, 105u8, 97u8, 108u8, 50u8, 52u8] {
        FontFace::Arial24
    } else if name == seq![97u8, 114u8, 105u8, 97u8, 108u8, 51u8, 48u8] {
        FontFace::Arial30
    } else if name == seq![97u8, 114u8, 105u8, 97u8, 108u8, 51u8, 54u8] {
        FontFace::Arial36
    } else if name == seq![97u8, 116u8, 107u8, 105u8, 110u8, 115u8, 111u8, 110u8, 49u8, 56u8] {
        FontFace::Atkinson18
    } else if name == seq![97u8, 116u8, 107u8, 105u8, 110u8, 115u8, 111u8, 110u8, 50u8, 52u8] {
        FontFace::Atkinson24
    } else if name == seq![97u8, 116u8, 107u8, 105u8, 110u8, 115u8, 111u8, 110u8, 51u8, 48u8] {
        FontFace::Atkinson30
    } else if name == seq![97u8, 116u8, 107u8, 105u8, 110u8, 115u8, 111u8, 110u8, 51u8, 54u8] {
        FontFace::Atkinson36
    } else if name == seq![102u8, 115u8, 95u8, 98u8, 114u8, 97u8, 98u8, 111u8, 49u8, 56u8] {
        FontFace::FsBrabo18
    } else if name == seq![102u8, 115u8, 95u8, 98u8, 114u8, 97u8, 98u8, 111u8, 50u8, 52u8] {
        FontFace::FsBrabo24
    } else if name == seq![102u8, 115u8, 95u8, 98u8, 114u8, 97u8, 98u8, 111u8, 51u8, 48u8] {
        FontFace::FsBrabo30
    } else if name == seq![102u8, 115u8, 95u8, 98u8, 114u8, 97u8, 98u8, 111u8, 51u8, 54u8] {
        FontFace::FsBrabo36
    } else if name == seq![103u8, 101u8, 111u8, 114u8, 103u8, 105u8, 97u8, 49u8, 56u8] {
        FontFace::Georgia18
    } else if name == seq![103u8, 101u8, 111u8, 114u8, 103u8, 105u8, 97u8, 50u8, 52u8] {
        FontFace::Georgia24
    } else if name == seq![103u8, 101u8, 111u8, 114u8, 103u8, 105u8, 97u8, 51u8, 48u8] {
        FontFace::Georgia30
    } else if name == seq![103u8, 101u8, 111u8, 114u8, 103u8, 105u8, 97u8, 51u8, 54u8] {
        FontFace::Georgia36
    } else if name == seq![112u8, 97u8, 108u8, 97u8, 116u8, 105u8, 110u8, 111u8, 49u8, 56u8] {
        FontFace::Palatino18
    } else if name == seq![112u8, 97u8, 108u8, 97u8, 116u8, 105u8, 110u8, 111u8, 50u8, 52u8] {
        FontFace::Palatino24
    } else if name == seq![112u8, 97u8, 108u8, 97u8, 116u8, 105u8, 110u8, 111u8, 51u8, 48u8] {
        FontFace::Palatino30
    } else if name == seq![112u8, 97u8, 108u8, 97u8, 116u8, 105u8, 110u8, 111u8, 51u8, 54u8] {
        FontFace::Palatino36
    } else if name == seq![116u8, 105u8, 109u8, 101u8, 115u8, 49u8, 56u8] {
        FontFace::Times18
    } else if name == seq![116u8, 105u8, 109u8, 101u8, 115u8, 50u8, 52u8] {
        FontFace::Times24
    } else if name == seq![116u8, 105u8, 109u8, 101u8, 115u8, 51u8, 48u8] {
        FontFace::Times30
    } else if name == seq![116u8, 105u8, 109u8, 101u8, 115u8, 51u8, 54u8] {
        FontFace::Times36
    } else {
        FontFace::Times18
    }
}

fn bytes_equal(a: &[u8], b: &[u8]) -> (r: bool)
    ensures
        r == (a@ == b@),
{
    if a.len() != b.len() {
        return false;
    }
    let mut i: usize = 0;
    while i < a.len()
        invariant
            a@.len() == b@.len(),
            i <= a@.len(),
            forall|m: int| 0 <= m < i ==> a@[m] == b@[m],
        decreases a@.len() - i,
    {
        if a[i] != b[i] {
            return false;
        }
        i = i + 1;
    }
    assert(a@ == b@);
    true
}

impl FontFace {
    /// Looks a face up by its name, such as `"times36"` or `"georgia24"`;
    /// an unknown name gives the default face, `Times18`.
    pub fn from_name(name: &str) -> (r: FontFace)
        ensures
            r == face_named(name.spec_bytes()),
    {
        let n = name.as_bytes();
        if bytes_equal(n, &[97u8, 114u8, 105u8, 97u8, 108u8, 49u8, 56u8]) {
            return FontFace::Arial18;
        }
        if bytes_equal(n, &[97u8, 114u8, 105u8, 97u8, 108u8, 50u8, 52u8]) {
            return FontFace::Arial24;
        }
        if bytes_equal(n, &[97u8, 114u8, 105u8, 97u8, 108u8, 51u8, 48u8]) {
            return FontFace::Arial30;
        }
        if bytes_equal(n, &[97u8, 114u8, 105u8, 97u8, 108u8, 51u8, 54u8]) {
            return FontFace::Arial36;
        }
        if bytes_equal(n, &[97u8, 116u8, 107u8, 105u8, 110u8, 115u8, 111u8, 110u8, 49u8, 56u8]) {
            return FontFace::Atkinson18;
        }
        if bytes_equal(n, &[97u8, 116u8, 107u8, 105u8, 110u8, 115u8, 111u8, 110u8, 50u8, 52u8]) {
            return FontFace::Atkinson24;
        }
        if bytes_equal(n, &[97u8, 116u8, 107u8, 105u8, 110u8, 115u8, 111u8, 110u8, 51u8, 48u8]) {
            return FontFace::Atkinson30;
        }
        if bytes_equal(n, &[97u8, 116u8, 107u8, 105u8, 110u8, 115u8, 111u8, 110u8, 51u8, 54u8]) {
            return FontFace::Atkinson36;
        }
        if bytes_equal(n, &[102u8, 115u8, 95u8, 98u8, 114u8, 97u8, 98u8, 111u8, 49u8, 56u8]) {
            return FontFace::FsBrabo18;
        }
        if bytes_equal(n, &[102u8, 115u8, 95u8, 98u8, 114u8, 97u8, 98u8, 111u8, 50u8, 52u8]) {
            return FontFace::FsBrabo24;
        }
        if bytes_equal(n, &[102u8, 115u8, 95u8, 98u8, 114u8, 97u8, 98u8, 111u8, 51u8, 48u8]) {
            return FontFace::FsBrabo30;
        }
        if bytes_equal(n, &[102u8, 115u8, 95u8, 98u8, 114u8, 97u8, 98u8, 111u8, 51u8, 54u8]) {
            return FontFace::FsBrabo36;
        }
        if bytes_equal(n, &[103u8, 101u8, 111u8, 114u8, 103u8, 105u8, 97u8, 49u8, 56u8]) {
            return FontFace::Georgia18;
        }
        if bytes_equal(n, &[103u8, 101u8, 111u8, 114u8, 103u8, 105u8, 97u8, 50u8, 52u8]) {
            return FontFace::Georgia24;
        }
        if bytes_equal(n, &[103u8, 101u8, 111u8, 114u8, 103u8, 105u8, 97u8, 51u8, 48u8]) {
            return FontFace::Georgia30;
        }
        if bytes_equal(n, &[103u8, 101u8, 111u8, 114u8, 103u8, 105u8, 97u8, 51u8, 54u8]) {
            return FontFace::Georgia36;
        }
        if bytes_equal(n, &[112u8, 97u8, 108u8, 97u8, 116u8, 105u8, 110u8, 111u8, 49u8, 56u8]) {
            return FontFace::Palatino18;
        }
        if bytes_equal(n, &[112u8, 97u8, 108u8, 97u8, 116u8, 105u8, 110u8, 111u8, 50u8, 52u8]) {
            return FontFace::Palatino24;
        }
        if bytes_equal(n, &[112u8, 97u8, 108u8, 97u8, 116u8, 105u8, 110u8, 111u8, 51u8, 48u8]) {
            return FontFace::Palatino30;
        }
        if bytes_equal(n, &[112u8, 97u8, 108u8, 97u8, 116u8, 105u8, 110u8, 111u8, 51u8, 54u8]) {
            return FontFace::Palatino36;
        }
        if bytes_equal(n, &[116u8, 105u8, 109u8, 101u8, 115u8, 49u8, 56u8]) {
            return FontFace::Times18;
        }
        if bytes_equal(n, &[116u8, 105u8, 109u8, 101u8, 115u8, 50u8, 52u8]) {
            return FontFace::Times24;
        }
        if bytes_equal(n, &[116u8, 105u8, 109u8, 101u8, 115u8, 51u8, 48u8]) {
            return FontFace::Times30;
        }
        if bytes_equal(n, &[116u8, 105u8, 109u8, 101u8, 115u8, 51u8, 54u8]) {
            return FontFace::Times36;
        }
        FontFace::Times18
    }
}

} // verus!
