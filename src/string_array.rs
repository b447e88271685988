use vstd::prelude::*;
use vstd::string::StringSliceAdditionalSpecFns;
use crate::dataset::DataRef;
use crate::format::{TYPE_DIM_2D, TYPE_HINT_TEXT, TYPE_PRIM_U8};
use crate::shape::Shape;

verus! {

/// The longest byte length among the strings.
pub open spec fn max_width(strings: Seq<&str>) -> nat
    decreases strings.len(),
{
    if strings.len() == 0 {
        0
    } else {
        let w = max_width(strings.drop_last());
        let l = strings.last().spec_bytes().len();
        if l > w { l } else { w }
    }
}

/// The strings one after the other, each padded with zero bytes to `width`.
pub open spec fn padded_rows(strings: Seq<&str>, width: nat) -> Seq<u8>
    decreases strings.len(),
{
    if strings.len() == 0 {
        Seq::empty()
    } else {
        let s = strings.last().spec_bytes();
        padded_rows(strings.drop_last(), width) + s + Seq::new(
            (width - s.len()) as nat,
            |_i: int| 0u8,
        )
    }
}

proof fn lemma_max_width(strings: Seq<&str>, k: int)
    requires
        0 <= k <= strings.len(),
    ensures
        max_width(strings.take(k)) <= max_width(strings),
        forall|i: int| 0 <= i < k ==> #[trigger] strings[i].spec_bytes().len() <= max_width(strings),
    decreases strings.len() - k,
{
    if k < strings.len() {
        lemma_max_width(strings, k + 1);
        assert(strings.take(k + 1).drop_last() =~= strings.take(k));
    } else {
        assert(strings.take(k) =~= strings);
        lemma_max_width_all(strings);
    }
}

proof fn lemma_max_width_all(strings: Seq<&str>)
    ensures
        forall|i: int|
            0 <= i < strings.len() ==> #[trigger] strings[i].spec_bytes().len() <= max_width(strings),
    decreases strings.len(),
{
    if strings.len() > 0 {
        lemma_max_width_all(strings.drop_last());
        assert forall|i: int| 0 <= i < strings.len() implies #[trigger] strings[i].spec_bytes().len()
            <= max_width(strings) by {
            if i < strings.len() - 1 {
                assert(strings.drop_last()[i] == strings[i]);
            }
        }
    }
}

/// Builds a text table of the strings in `data`: each string padded with
/// zero bytes to the longest one, as rows of a `rows x width` array of bytes.
pub fn build_string_array_utf8<'a>(strings: &[&str], data: &'a mut Vec<u8>) -> (r: DataRef<'a>)
    requires
        strings@.len() <= u32::MAX,
        max_width(strings@) <= u32::MAX,
        strings@.len() * max_width(strings@) <= usize::MAX,
    ensures
        r.bytes@ == padded_rows(strings@, max_width(strings@)),
        r.type_info == TYPE_PRIM_U8 | TYPE_DIM_2D | TYPE_HINT_TEXT,
        r.compress_info == 0,
        r.shape == Shape::D2(strings@.len() as u32, max_width(strings@) as u32),
{
    let mut width: usize = 0;
    let mut i: usize = 0;
    while i < strings.len()
        invariant
            i <= strings@.len(),
            width == max_width(strings@.take(i as int)),
            max_width(strings@) <= u32::MAX,
        decreases strings@.len() - i,
    {
        proof {
            lemma_max_width(strings@, i + 1);
            assert(strings@.take(i + 1).drop_last() =~= strings@.take(i as int));
        }
        let l = strings[i].len();
        if l > width {
            width = l;
        }
        i += 1;
    }
    assert(strings@.take(i as int) =~= strings@);
    proof {
        lemma_max_width_all(strings@);
    }
    data.clear();
    let mut i: usize = 0;
    while i < strings.len()
        invariant
            i <= strings@.len(),
            width == max_width(strings@),
            data@ == padded_rows(strings@.take(i as int), width as nat),
            data@.len() == i * width,
            strings@.len() * max_width(strings@) <= usize::MAX,
            forall|k: int| 0 <= k < strings@.len() ==> #[trigger] strings@[k].spec_bytes().len() <= width,
        decreases strings@.len() - i,
    {
        let s = strings[i].as_bytes();
        let ghost before = data@;
        let mut j: usize = 0;
        while j < s.len()
            invariant
                j <= s@.len(),
                data@ == before + s@.take(j as int),
            decreases s@.len() - j,
        {
            data.push(s[j]);
            j += 1;
            assert(s@.take(j as int) =~= s@.take(j - 1).push(s@[j - 1]));
        }
        assert(s@.take(j as int) =~= s@);
        assert(s@.len() <= width) by {
            assert(strings@[i as int].spec_bytes() == s@);
        }
        let ghost mid = data@;
        while j < width
            invariant
                s@.len() <= j <= width,
                data@ == mid + Seq::new((j - s@.len()) as nat, |_t: int| 0u8),
            decreases width - j,
        {
            data.push(0);
            j += 1;
            assert(data@ =~= mid + Seq::new((j - s@.len()) as nat, |_t: int| 0u8));
        }
        proof {
            let t = strings@.take(i + 1);
            assert(t.drop_last() =~= strings@.take(i as int));
            assert(t.last() == strings@[i as int]);
            assert(data@ =~= padded_rows(t, width as nat));
            assert((i + 1) * width == i * width + width) by (nonlinear_arith);
            assert((i + 1) * width <= strings@.len() * width) by (nonlinear_arith)
                requires
                    i + 1 <= strings@.len(),
            ;
        }
        i += 1;
    }
    assert(strings@.take(i as int) =~= strings@);
    let bytes: &'a Vec<u8> = data;
    DataRef {
        type_info: TYPE_PRIM_U8 | TYPE_DIM_2D | TYPE_HINT_TEXT,
        compress_info: 0,
        shape: Shape::D2(strings.len() as u32, width as u32),
        bytes: bytes.as_slice(),
    }
}

} // verus!
