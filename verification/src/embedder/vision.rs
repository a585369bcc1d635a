//! The visual encoder: whether its model is there, and what its output is.

use crate::error::AppError;
use crate::float32::Float32;
use crate::search::{all_finite, is_sound};
use crate::text::{decimal, decimal_u64, same};
use vstd::prelude::*;

verus! {

/// The edge, in pixels, of the images that the encoder takes.
pub const MODEL_INPUT_SIZE: u32 = 224;

/// A model that can be loaded.
#[derive(Clone, Debug)]
pub struct VisionEmbedder {
    model_path: String,
}

impl VisionEmbedder {
    /// The file of the model.
    pub closed spec fn path(self) -> Seq<char> {
        self.model_path@
    }

    /// The model in a file, where the file is there and the model can be loaded:
    /// `probe` is what came of loading it.
    pub fn load(model_path: String, exists_on_disk: bool, probe: Result<(), String>) -> (r: Result<
        VisionEmbedder,
        AppError,
    >)
        ensures
            r is Ok <==> exists_on_disk && probe is Ok,
            r is Ok ==> r->Ok_0.path() == model_path@,
            !exists_on_disk ==> r->Err_0 is Config && r->Err_0->Config_0@
                == "Vision model not found at "@ + model_path@
                + ". Export with: python scripts/export_dinov2.py then copy models/dinov2_vits14.onnx → "@
                + model_path@,
            exists_on_disk && probe is Err ==> r->Err_0 is Model && r->Err_0->Model_0
                == probe->Err_0,
    {
        if !exists_on_disk {
            let mut msg = "Vision model not found at ".to_owned();
            msg.append(model_path.as_str());
            msg.append(
                ". Export with: python scripts/export_dinov2.py then copy models/dinov2_vits14.onnx → ",
            );
            msg.append(model_path.as_str());
            return Err(AppError::Config(msg));
        }
        match probe {
            Err(e) => Err(AppError::Model(e)),
            Ok(_) => Ok(VisionEmbedder { model_path }),
        }
    }

    /// The file of the model.
    pub fn model_path(&self) -> (r: &str)
        ensures
            r@ == self.path(),
    {
        self.model_path.as_str()
    }
}

/// Threads of a session: as many as asked for, or one for each processor.
pub fn session_threads(intra_threads: usize, cpus: usize) -> (r: usize)
    ensures
        r == if intra_threads == 0 {
            cpus
        } else {
            intra_threads
        },
{
    if intra_threads == 0 {
        cpus
    } else {
        intra_threads
    }
}

/// The first place of a name in a list.
pub open spec fn is_first(names: Seq<String>, name: Seq<char>, k: int) -> bool {
    &&& 0 <= k < names.len()
    &&& names[k]@ == name
    &&& forall|j: int| 0 <= j < k ==> (#[trigger] names[j])@ != name
}

/// Whether a name is in a list.
pub open spec fn has_name(names: Seq<String>, name: Seq<char>) -> bool {
    exists|k: int| 0 <= k < names.len() && (#[trigger] names[k])@ == name
}

fn find_name(names: &Vec<String>, name: &str) -> (r: Option<usize>)
    ensures
        match r {
            Some(k) => is_first(names@, name@, k as int),
            None => !has_name(names@, name@),
        },
{
    let mut i: usize = 0;
    while i < names.len()
        invariant
            i <= names@.len(),
            forall|j: int| 0 <= j < i ==> (#[trigger] names@[j])@ != name@,
        decreases names@.len() - i,
    {
        if same(names[i].as_str(), name) {
            return Some(i);
        }
        i = i + 1;
    }
    None
}

/// Which output of the encoder is the embedding: `embedding`, else `image_embeds`,
/// else the first.
pub fn embedding_key(names: &Vec<String>) -> (r: Result<usize, AppError>)
    ensures
        r is Ok <==> names@.len() > 0,
        r is Ok ==> {
            let k = r->Ok_0 as int;
            if has_name(names@, "embedding"@) {
                is_first(names@, "embedding"@, k)
            } else if has_name(names@, "image_embeds"@) {
                is_first(names@, "image_embeds"@, k)
            } else {
                k == 0
            }
        },
        r is Err ==> r->Err_0 is Model && r->Err_0->Model_0@ == "No outputs from vision model"@,
{
    if let Some(k) = find_name(names, "embedding") {
        assert(names@[k as int]@ == "embedding"@);
        return Ok(k);
    }
    if let Some(k) = find_name(names, "image_embeds") {
        assert(names@[k as int]@ == "image_embeds"@);
        return Ok(k);
    }
    if names.len() == 0 {
        return Err(AppError::Model("No outputs from vision model".to_owned()));
    }
    Ok(0)
}

/// A vector whose components are all finite as it is, any other as zeros: one
/// spoilt component would spoil every distance to it.
pub open spec fn sanitized(v: Seq<Float32>) -> Seq<Float32> {
    if all_finite(v) {
        v
    } else {
        Seq::new(v.len(), |i: int| Float32 { bits: 0 })
    }
}

/// A vector as it may be stored: any that is not finite becomes zeros.
pub fn sanitize(v: Vec<Float32>) -> (r: Vec<Float32>)
    ensures
        r@ == sanitized(v@),
{
    if is_sound(&v) {
        return v;
    }
    let mut out: Vec<Float32> = Vec::new();
    let mut i: usize = 0;
    while i < v.len()
        invariant
            i <= v@.len(),
            out@ =~= Seq::new(i as nat, |j: int| Float32 { bits: 0 }),
        decreases v@.len() - i,
    {
        out.push(Float32 { bits: 0 });
        i = i + 1;
    }
    out
}

/// What is stored is finite, whatever the encoder gave.
pub proof fn sanitized_is_finite(v: Seq<Float32>)
    ensures
        all_finite(sanitized(v)),
        sanitized(v).len() == v.len(),
{
}

/// The vectors of a batch of `n` images, from the output of the encoder, which
/// holds one after the other. The output has to be divisible by `n`.
pub fn split_rows(data: &Vec<Float32>, n: usize) -> (r: Result<Vec<Vec<Float32>>, AppError>)
    requires
        n > 0,
    ensures
        r is Ok <==> data@.len() as int % n as int == 0,
        r is Ok ==> {
            let dim = data@.len() as int / n as int;
            &&& r->Ok_0@.len() == n
            &&& forall|i: int|
                0 <= i < n ==> (#[trigger] r->Ok_0@[i])@ == data@.subrange(i * dim, i * dim + dim)
        },
        r is Err ==> r->Err_0 is Model && r->Err_0->Model_0@
            == "Batch output not divisible by batch size: total="@ + decimal(data@.len() as int)
            + ", n="@ + decimal(n as int),
{
    let total: usize = data.len();
    if total % n != 0 {
        let mut msg = "Batch output not divisible by batch size: total=".to_owned();
        let t = decimal_u64(total as u64);
        let b = decimal_u64(n as u64);
        msg.append(t.as_str());
        msg.append(", n=");
        msg.append(b.as_str());
        return Err(AppError::Model(msg));
    }
    let dim: usize = total / n;
    assert(n * dim == total) by (nonlinear_arith)
        requires
            dim == total / n,
            total % n == 0,
            n > 0,
    ;
    let mut out: Vec<Vec<Float32>> = Vec::new();
    let mut i: usize = 0;
    let mut at: usize = 0;
    assert(0 * dim == 0) by (nonlinear_arith);
    while i < n
        invariant
            i <= n,
            total == data@.len(),
            n * dim == total,
            at == i * dim,
            out@.len() == i,
            forall|j: int|
                0 <= j < i ==> (#[trigger] out@[j])@ == data@.subrange(j * dim, j * dim + dim),
        decreases n - i,
    {
        assert((i + 1) * dim == i * dim + dim && (i + 1) * dim <= n * dim) by (nonlinear_arith)
            requires
                i + 1 <= n,
                dim >= 0,
        ;
        let mut row: Vec<Float32> = Vec::new();
        let mut k: usize = 0;
        while k < dim
            invariant
                k <= dim,
                at + dim <= total,
                total == data@.len(),
                row@ =~= data@.subrange(at as int, at + k),
            decreases dim - k,
        {
            row.push(data[at + k]);
            k = k + 1;
        }
        out.push(row);
        at = at + dim;
        i = i + 1;
    }
    Ok(out)
}

/// A vector is stored as it is where no component has all bits of the exponent set, and
/// as zeros otherwise.
pub proof fn spoilt_vectors_become_zeros(v: Vec<Float32>, r: Vec<Float32>)
    requires
        call_ensures(sanitize, (v,), r),
    ensures
        r@.len() == v@.len(),
        (forall|i: int|
            0 <= i < v@.len() ==> (#[trigger] v@[i]).bits < 0x7f80_0000 || 0x8000_0000 <= v@[i].bits
                < 0xff80_0000) ==> r@ == v@,
        (exists|i: int|
            0 <= i < v@.len() && (0x7f80_0000 <= (#[trigger] v@[i]).bits < 0x8000_0000 || v@[i].bits
                >= 0xff80_0000)) ==> forall|i: int| 0 <= i < r@.len() ==> (#[trigger] r@[i]).bits == 0,
{
    if exists|i: int|
        0 <= i < v@.len() && (0x7f80_0000 <= (#[trigger] v@[i]).bits < 0x8000_0000 || v@[i].bits
            >= 0xff80_0000) {
        let i = choose|i: int|
            0 <= i < v@.len() && (0x7f80_0000 <= (#[trigger] v@[i]).bits < 0x8000_0000 || v@[i].bits
                >= 0xff80_0000);
        assert(!v@[i].finite());
        assert(!all_finite(v@));
    }
    if forall|i: int|
        0 <= i < v@.len() ==> (#[trigger] v@[i]).bits < 0x7f80_0000 || 0x8000_0000 <= v@[i].bits
            < 0xff80_0000 {
        assert forall|i: int| 0 <= i < v@.len() implies (#[trigger] v@[i]).finite() by {
        }
        assert(all_finite(v@));
    }
}

/// The embedding is the first output called `embedding`, or else the first called
/// `image_embeds`, or else the first of all.
pub proof fn embeddings_are_found_by_name(names: &Vec<String>, r: Result<usize, AppError>)
    requires
        call_ensures(embedding_key, (names,), r),
    ensures
        r is Ok <==> names@.len() > 0,
        r is Ok ==> r->Ok_0 < names@.len(),
        r is Ok ==> forall|i: int|
            0 <= i < names@.len() && (#[trigger] names@[i])@ == "embedding"@
                ==> names@[r->Ok_0 as int]@ == "embedding"@ && r->Ok_0 <= i,
        r is Ok && names@[r->Ok_0 as int]@ != "embedding"@ ==> forall|i: int|
            0 <= i < names@.len() && (#[trigger] names@[i])@ == "image_embeds"@
                ==> names@[r->Ok_0 as int]@ == "image_embeds"@ && r->Ok_0 <= i,
        r is Ok && names@[r->Ok_0 as int]@ != "embedding"@ && names@[r->Ok_0 as int]@
            != "image_embeds"@ ==> r->Ok_0 == 0,
{
    reveal_strlit("embedding");
    reveal_strlit("image_embeds");
    assert("embedding"@.len() != "image_embeds"@.len());
}

/// The vectors of a batch stand one behind the other in the output, all of one length.
pub proof fn rows_stand_one_behind_the_other(
    data: &Vec<Float32>,
    n: usize,
    r: Result<Vec<Vec<Float32>>, AppError>,
    i: int,
    k: int,
)
    requires
        n > 0,
        call_ensures(split_rows, (data, n), r),
        r is Ok,
        0 <= i < n,
        0 <= k < r->Ok_0@[i]@.len(),
    ensures
        r->Ok_0@.len() == n,
        n * r->Ok_0@[i]@.len() == data@.len(),
        0 <= i * r->Ok_0@[i]@.len() + k < data@.len(),
        r->Ok_0@[i]@[k] == data@[i * r->Ok_0@[i]@.len() + k],
{
    let len = data@.len() as int;
    let dim = len / (n as int);
    assert(n * dim == len && dim >= 0) by (nonlinear_arith)
        requires
            dim == len / (n as int),
            len % (n as int) == 0,
            n > 0,
            len >= 0,
    ;
    assert(0 <= i * dim && i * dim + dim <= len) by (nonlinear_arith)
        requires
            0 <= i < n,
            n * dim == len,
            dim >= 0,
    ;
    assert(r->Ok_0@[i]@ == data@.subrange(i * dim, i * dim + dim));
}

} // verus!
