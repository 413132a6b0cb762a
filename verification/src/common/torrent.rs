use vstd::prelude::*;

use crate::bencoding::data_kind::{ConvertError, Dictionary};
use crate::common::meta_info::{meta_info_panics, meta_info_refusal, read_meta_info, MetaInfo};

verus! {

#[verifier::external_type_specification]
#[verifier::external_body]
pub struct ExPathBuf(std::path::PathBuf);

/// A copy of a path (`PathBuf::clone`); nothing is stated of it.
pub assume_specification[ <std::path::PathBuf as std::clone::Clone>::clone ](
    path: &std::path::PathBuf,
) -> std::path::PathBuf;

/// A torrent being downloaded to `destination`, with its transfer counts.
#[derive(Debug, Clone)]
pub struct Torrent {
    pub metainfo: MetaInfo,
    pub downloaded: usize,
    pub uploaded: usize,
    pub left: usize,
    pub destination: std::path::PathBuf,
}

impl Torrent {
    /// A torrent of the metainfo dictionary `info`, with nothing transferred yet and all
    /// of it left to download; a dictionary that cannot be read gives the error of
    /// `MetaInfo::from_dict`. The torrent keeps `destination` as it is given.
    pub fn from_dictionary(info: Dictionary, destination: std::path::PathBuf) -> (r: Result<
        Torrent,
        ConvertError,
    >)
        requires
            !meta_info_panics(info.model()),
        ensures
            match read_meta_info(info.model()) {
                Some(m) => r matches Ok(t) && t.metainfo.describes(m) && t.downloaded == 0
                    && t.uploaded == 0 && t.left == m.total_size && t.destination == destination,
                None => r is Err,
            },
            meta_info_refusal(info.model()) matches Some(message) ==> r matches Err(e)
                && e.message() == message,
    {
        let metainfo = match MetaInfo::from_dict(info) {
            Ok(m) => m,
            Err(e) => return Err(e),
        };
        let total_size = metainfo.total_size;
        Ok(
            Torrent {
                metainfo,
                downloaded: 0,
                uploaded: 0,
                left: total_size,
                destination,
            },
        )
    }
}

} // verus!
