//! Run configuration: where the trees live, which extensions are transcoded,
//! and which bracket kinds the naming rule strips.

use vstd::prelude::*;
use crate::rclone_path::RclonePath;

verus! {

/// Configuration of one synchronisation run. Immutable for its duration.
pub struct Config {
    /// Root of the source tree.
    pub input_directory: RclonePath,
    /// Root of the destination tree.
    pub output_directory: RclonePath,
    /// Scratch directory used when a tree is remote.
    pub temp_directory: Option<String>,
    /// File extensions whose files are transcoded rather than copied.
    pub extensions_to_encode: Vec<String>,
    /// Extension that transcoded files receive.
    pub encoded_extension: String,
    /// Whether embedded cover art is carried over after a transcode.
    pub copy_covers: Option<bool>,
    /// Parameters handed to the transcoder between input and output path.
    pub ffmpeg_params: String,
    /// Strip `( ... )` groups from destination names.
    pub remove_round_brackets: Option<bool>,
    /// Strip `[ ... ]` groups from destination names.
    pub remove_square_brackets: Option<bool>,
    /// Strip `{ ... }` groups from destination names.
    pub remove_curly_brackets: Option<bool>,
    /// Strip `< ... >` groups from destination names.
    pub remove_angle_brackets: Option<bool>,
}

impl Config {
    /// The extensions to transcode, as sequences of characters.
    pub open spec fn exts(self) -> Seq<Seq<char>> {
        self.extensions_to_encode.deep_view()
    }

    /// The replacement extension, as a sequence of characters.
    pub open spec fn enc(self) -> Seq<char> {
        self.encoded_extension@
    }
}

} // verus!
