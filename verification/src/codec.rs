//! How the bytes of an input file are to be decoded.

use vstd::prelude::*;
use vstd::string::StringExecFns;

verus! {

/// The decoding that an input file needs before its lines can be read.
#[derive(Clone, Copy, Debug, PartialEq, Eq, Structural)]
pub enum Codec {
    /// The file is read as it is.
    Plain,
    /// The file is a gzip archive.
    Gzip,
    /// The file is a bzip2 archive.
    Bzip2,
}

/// The decoding for a file whose content was recognised as an archive or
/// not, with the extension that goes with the recognised type. An archive of
/// a kind other than gzip and bzip2 is read as it is, as is every file that
/// is no archive.
pub open spec fn codec_of(archive: bool, extension: Seq<char>) -> Codec {
    if archive && extension == "gz"@ {
        Codec::Gzip
    } else if archive && extension == "bz2"@ {
        Codec::Bzip2
    } else {
        Codec::Plain
    }
}

impl Codec {
    /// The decoding for a file of a recognised type.
    pub fn of(archive: bool, extension: &str) -> (r: Codec)
        ensures
            r == codec_of(archive, extension@),
    {
        if !archive {
            return Codec::Plain;
        }
        let extension = String::from_str(extension);
        if extension == String::from_str("gz") {
            Codec::Gzip
        } else if extension == String::from_str("bz2") {
            Codec::Bzip2
        } else {
            Codec::Plain
        }
    }
}

} // verus!
