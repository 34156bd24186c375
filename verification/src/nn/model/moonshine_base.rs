//! The Moonshine base speech model: where its files are, and how it is run.

use vstd::prelude::*;

verus! {

/// Where the decoder is downloaded from.
pub const DECODER_CHECKPOINT_URL: &'static str = "https://huggingface.co/onnx-community/moonshine-base-ONNX/resolve/main/onnx/decoder_model_fp16.onnx";

/// Where the encoder is downloaded from.
pub const ENCODER_CHECKPOINT_URL: &'static str = "https://huggingface.co/onnx-community/moonshine-base-ONNX/resolve/main/onnx/encoder_model_fp16.onnx";

/// The name of the decoder file in the cache.
pub const DECODER_FILENAME: &'static str = "decoder_model_fp16.onnx";

/// The name of the encoder file in the cache.
pub const ENCODER_FILENAME: &'static str = "encoder_model_fp16.onnx";

/// How many threads each session uses.
pub const INTRA_THREADS: usize = 4;

/// Both files lie in one directory of the model's repository, under the names that
/// they have in the cache, and the two names differ.
pub proof fn files_lie_in_one_directory()
    ensures
        DECODER_CHECKPOINT_URL@
            == "https://huggingface.co/onnx-community/moonshine-base-ONNX/resolve/main/onnx/"@
            + DECODER_FILENAME@,
        ENCODER_CHECKPOINT_URL@
            == "https://huggingface.co/onnx-community/moonshine-base-ONNX/resolve/main/onnx/"@
            + ENCODER_FILENAME@,
        DECODER_FILENAME@ != ENCODER_FILENAME@,
{
    reveal_strlit(
        "https://huggingface.co/onnx-community/moonshine-base-ONNX/resolve/main/onnx/decoder_model_fp16.onnx",
    );
    reveal_strlit(
        "https://huggingface.co/onnx-community/moonshine-base-ONNX/resolve/main/onnx/encoder_model_fp16.onnx",
    );
    reveal_strlit("https://huggingface.co/onnx-community/moonshine-base-ONNX/resolve/main/onnx/");
    reveal_strlit("decoder_model_fp16.onnx");
    reveal_strlit("encoder_model_fp16.onnx");
    assert(DECODER_FILENAME@[0] == 'd' && ENCODER_FILENAME@[0] == 'e');
}

} // verus!
