//! The CLIP encoder, which can take the place of the visual encoder.

use crate::error::AppError;
use vstd::prelude::*;

verus! {

/// Components of a vector.
pub const CLIP_EMBEDDING_DIM: usize = 512;

/// A model that can be loaded.
#[derive(Clone, Debug)]
pub struct ClipEmbedder {
    model_path: String,
}

impl ClipEmbedder {
    /// The file of the model.
    pub closed spec fn path(self) -> Seq<char> {
        self.model_path@
    }

    /// The model in a file, where the file is there and the model can be loaded:
    /// `probe` is what came of loading it.
    pub fn load(model_path: String, exists_on_disk: bool, probe: Result<(), String>) -> (r: Result<
        ClipEmbedder,
        AppError,
    >)
        ensures
            r is Ok <==> exists_on_disk && probe is Ok,
            r is Ok ==> r->Ok_0.path() == model_path@,
            !exists_on_disk ==> r->Err_0 is Config && r->Err_0->Config_0@
                == "CLIP model not found at "@ + model_path@
                + ". Export with: optimum-cli export onnx --model openai/clip-vit-base-patch32 --task feature-extraction clip_onnx/ then copy clip_onnx/vision_model.onnx → "@
                + model_path@,
            exists_on_disk && probe is Err ==> r->Err_0 is Model && r->Err_0->Model_0
                == probe->Err_0,
    {
        if !exists_on_disk {
            let mut msg = "CLIP model not found at ".to_owned();
            msg.append(model_path.as_str());
            msg.append(
                ". Export with: optimum-cli export onnx --model openai/clip-vit-base-patch32 --task feature-extraction clip_onnx/ then copy clip_onnx/vision_model.onnx → ",
            );
            msg.append(model_path.as_str());
            return Err(AppError::Config(msg));
        }
        match probe {
            Err(e) => Err(AppError::Model(e)),
            Ok(_) => Ok(ClipEmbedder { model_path }),
        }
    }
}

} // verus!
