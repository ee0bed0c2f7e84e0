//! Batch finalization at shutdown: run the recording-side content pipeline
//! over every resource captured in the inventory, so the proxy itself stays
//! lightweight while recording.

use crate::codec::b64_of;
use crate::processor::{
    spec_charset_set_ok, spec_content_path_ok, spec_decompressed, RequestProcessor,
};
use crate::traits::{FileSystem, TimeProvider};
use crate::types::{HeaderValue, Inventory, PipelineError, Resource};
use vstd::prelude::*;
use vstd::string::StringSliceAdditionalSpecFns;
use vstd::utf8::encode_utf8;

verus! {

/// Whether a recorded resource counts as text for the batch pipeline: its
/// stored MIME type is one of the beautified text types.
pub open spec fn spec_batch_is_text(r: Resource) -> bool {
    match r.content_type_mime {
        Some(m) => crate::utils::spec_is_text_resource(encode_utf8(m@)),
        None => false,
    }
}

/// The values of a repeated header read as one `Content-Type` value: joined
/// with `; `.
pub open spec fn spec_joined_values(vs: Seq<Seq<char>>) -> Seq<char>
    decreases vs.len(),
{
    if vs.len() == 0 {
        Seq::empty()
    } else if vs.len() == 1 {
        vs[0]
    } else {
        vs[0] + "; "@ + spec_joined_values(vs.drop_first())
    }
}

proof fn lemma_joined_snoc(vs: Seq<Seq<char>>, e: Seq<char>)
    ensures
        spec_joined_values(vs.push(e)) == if vs.len() == 0 {
            e
        } else {
            spec_joined_values(vs) + "; "@ + e
        },
    decreases vs.len(),
{
    let p = vs.push(e);
    if vs.len() == 0 {
        assert(p[0] == e);
        assert(spec_joined_values(p) == e);
    } else if vs.len() == 1 {
        assert(p[0] == vs[0]);
        assert(p.drop_first() =~= Seq::<Seq<char>>::empty().push(e));
        assert(p.drop_first()[0] == e);
        assert(spec_joined_values(p.drop_first()) == e);
        assert(spec_joined_values(p) =~= spec_joined_values(vs) + "; "@ + e);
    } else {
        lemma_joined_snoc(vs.drop_first(), e);
        assert(p.drop_first() =~= vs.drop_first().push(e));
        assert(p[0] == vs[0]);
        assert(spec_joined_values(p) =~= spec_joined_values(vs) + "; "@ + e);
    }
}

/// How the batch pipeline resolves a text resource's charset: through the
/// resolution rule applied to the joined `Content-Type` header value and the
/// decompressed body; without that header the charset is left as recorded.
pub open spec fn spec_batch_charset_ok(pre: Resource, cs: Option<String>, dec: Seq<u8>) -> bool {
    match pre.raw_headers {
        Some(h) => match h.spec_find(encode_utf8("content-type"@)) {
            Some(i) => match pre.content_type_mime {
                Some(m) => spec_charset_set_ok(
                    cs,
                    encode_utf8(spec_joined_values(h.entries@[i].value.values())),
                    encode_utf8(m@),
                    dec,
                ),
                None => cs == pre.content_charset,
            },
            None => cs == pre.content_charset,
        },
        None => cs == pre.content_charset,
    }
}

/// The fields the batch pipeline never touches.
pub open spec fn spec_batch_frame(pre: Resource, post: Resource) -> bool {
    &&& post.method == pre.method
    &&& post.url == pre.url
    &&& post.ttfb_ms == pre.ttfb_ms
    &&& post.download_end_ms == pre.download_end_ms
    &&& post.status_code == pre.status_code
    &&& post.error_message == pre.error_message
    &&& post.raw_headers == pre.raw_headers
    &&& post.content_encoding == pre.content_encoding
    &&& post.content_type_mime == pre.content_type_mime
    &&& post.content_utf8 == pre.content_utf8
    &&& post.mbps_x1000 == pre.mbps_x1000
}

/// A resource the batch pipeline finished: its stashed body decoded, its
/// content file path recorded, text resources carrying a resolved charset
/// and a minification verdict (or captured as binary when their text path
/// failed), binary resources inlined as base64, and the stash cleared.
pub open spec fn spec_batch_processed(pre: Resource, post: Resource) -> bool {
    match pre.raw_body {
        Some(raw) => match spec_decompressed(pre.content_encoding, raw@) {
            Some(dec) => {
                &&& post.raw_body is None
                &&& spec_content_path_ok(pre, post.content_file_path)
                &&& (!spec_batch_is_text(pre) ==> (match post.content_base64 {
                    Some(b) => encode_utf8(b@) == b64_of(dec),
                    None => false,
                }) && post.content_charset == pre.content_charset && post.minify == pre.minify)
                &&& (spec_batch_is_text(pre) ==> spec_batch_charset_ok(
                    pre,
                    post.content_charset,
                    dec,
                ) && (post.minify is Some || match post.content_base64 {
                    Some(b) => encode_utf8(b@) == b64_of(dec),
                    None => false,
                }))
            },
            None => false,
        },
        None => false,
    }
}

/// A resource the batch pipeline left as recorded: no body to process, a
/// body that does not decode, or a failed write; the stash and content file
/// path are untouched.
pub open spec fn spec_batch_skipped(pre: Resource, post: Resource) -> bool {
    &&& post.raw_body == pre.raw_body
    &&& post.content_file_path == pre.content_file_path
}

/// Processes every recorded resource at shutdown time: decompressing bodies,
/// resolving charsets, beautifying minified text, and writing content files.
pub struct BatchProcessor<F: FileSystem, T: TimeProvider> {
    pub processor: RequestProcessor<F, T>,
}

impl<F: FileSystem, T: TimeProvider> BatchProcessor<F, T> {
    /// A batch processor rooted at the given inventory directory.
    pub fn new(inventory_dir: String, file_system: F, time_provider: T) -> (r: Self)
        ensures
            r.processor.contents_dir@ == inventory_dir@ + "/contents"@,
    {
        BatchProcessor { processor: RequestProcessor::new(inventory_dir, file_system, time_provider) }
    }

    /// Beautify text according to its MIME type.
    pub fn beautify_content(&self, content: &str, mime_type: &Option<String>) -> (r: Result<
        String,
        PipelineError,
    >)
        ensures
            match r {
                Ok(out) => crate::processor::spec_beautified_ok(
                    crate::transaction::opt_str_bytes(*mime_type),
                    content@,
                    out@,
                ),
                Err(_) => crate::processor::spec_beautify_fails(
                    crate::transaction::opt_str_bytes(*mime_type),
                    content@,
                ),
            },
    {
        self.processor.beautify_content(content, mime_type)
    }

    /// Process one resource's stashed wire body through the recording-side
    /// pipeline, clearing the stash afterwards. A resource without a stashed
    /// body is left untouched; one whose body does not decode under its
    /// recorded codec is reported and left as recorded; write and URL
    /// failures leave the resource as recorded too.
    pub fn process_resource(&self, resource: &mut Resource) -> (r: Result<(), PipelineError>)
        ensures
            spec_batch_frame(*old(resource), *final(resource)),
            old(resource).raw_body is None ==> r is Ok && *final(resource) == *old(resource),
            (match old(resource).raw_body {
                Some(raw) => spec_decompressed(old(resource).content_encoding, raw@) is None,
                None => false,
            }) ==> r == Err::<(), PipelineError>(PipelineError::BadEncodedBody) && *final(resource) == *old(resource),
            r is Ok && old(resource).raw_body is Some ==> spec_batch_processed(
                *old(resource),
                *final(resource),
            ),
            r matches Err(e) ==> (e == PipelineError::BadEncodedBody || e == PipelineError::FileIo
                || e == PipelineError::InvalidUrl) && spec_batch_skipped(
                *old(resource),
                *final(resource),
            ),
            r == Err::<(), PipelineError>(PipelineError::BadEncodedBody) ==> (match old(resource).raw_body {
                Some(raw) => spec_decompressed(old(resource).content_encoding, raw@) is None,
                None => false,
            }),
    {
        let raw: Vec<u8> = match &resource.raw_body {
            Some(b) => {
                let mut v: Vec<u8> = Vec::new();
                crate::bytetext::push_all(&mut v, b.as_slice());
                v
            },
            None => {
                return Ok(());
            },
        };
        let decompressed = match self.processor.decompress_body(
            raw.as_slice(),
            &resource.content_encoding,
        ) {
            Ok(d) => d,
            Err(e) => {
                return Err(PipelineError::BadEncodedBody);
            },
        };
        let is_text = match &resource.content_type_mime {
            Some(m) => crate::utils::is_text_resource(m.as_str()),
            None => false,
        };
        if is_text {
            let ct_joined: Option<String> = match &resource.raw_headers {
                Some(h) => match h.get("content-type") {
                    Some(v) => Some(join_values(v)),
                    None => None,
                },
                None => None,
            };
            match ct_joined {
                Some(ct) => {
                    let mime_ref = match &resource.content_type_mime {
                        Some(m) => m.as_str(),
                        None => "",
                    };
                    let charset = crate::processor::resolve_charset(
                        ct.as_str(),
                        mime_ref,
                        decompressed.as_slice(),
                    );
                    resource.content_charset = charset;
                },
                None => {},
            }
            match self.processor.process_text_resource(resource, decompressed.as_slice()) {
                Ok(u) => {},
                Err(e) => {
                    if matches!(e, PipelineError::BadEncodedBody) {
                        match self.processor.process_binary_resource(
                            resource,
                            decompressed.as_slice(),
                        ) {
                            Ok(u) => {},
                            Err(e2) => {
                                return Err(e2);
                            },
                        }
                    } else {
                        return Err(e);
                    }
                },
            }
        } else {
            match self.processor.process_binary_resource(resource, decompressed.as_slice()) {
                Ok(u) => {},
                Err(e) => {
                    return Err(e);
                },
            }
        }
        resource.raw_body = None;
        Ok(())
    }

    /// Process every resource in the inventory: each one ends either fully
    /// processed or left as recorded (only a failed write, a bad URL, or an
    /// undecodable body leaves one behind), and nothing else changes.
    pub fn process_all(&self, inventory: &mut Inventory) -> (r: Result<(), PipelineError>)
        ensures
            r is Ok,
            final(inventory).entry_url == old(inventory).entry_url,
            final(inventory).device_type == old(inventory).device_type,
            final(inventory).resources@.len() == old(inventory).resources@.len(),
            forall|i: int|
                0 <= i < final(inventory).resources@.len() ==> spec_batch_frame(
                    old(inventory).resources@[i],
                    #[trigger] final(inventory).resources@[i],
                ) && (spec_batch_processed(
                    old(inventory).resources@[i],
                    final(inventory).resources@[i],
                ) || spec_batch_skipped(
                    old(inventory).resources@[i],
                    final(inventory).resources@[i],
                )),
    {
        let n = inventory.resources.len();
        let mut i: usize = 0;
        while i < n
            invariant
                n == inventory.resources@.len(),
                i <= n,
                inventory.entry_url == old(inventory).entry_url,
                inventory.device_type == old(inventory).device_type,
                forall|j: int|
                    i as int <= j < n as int ==> #[trigger] inventory.resources@[j] == old(inventory).resources@[j],
                forall|j: int|
                    0 <= j < i as int ==> spec_batch_frame(
                        old(inventory).resources@[j],
                        #[trigger] inventory.resources@[j],
                    ) && (spec_batch_processed(
                        old(inventory).resources@[j],
                        inventory.resources@[j],
                    ) || spec_batch_skipped(
                        old(inventory).resources@[j],
                        inventory.resources@[j],
                    )),
            decreases n - i,
        {
            let res: &mut Resource = &mut inventory.resources[i];
            match self.process_resource(res) {
                Ok(u) => {},
                Err(_) => {},
            }
            i = i + 1;
        }
        Ok(())
    }
}

/// All values of a header joined with `; `, mirroring how a repeated
/// `Content-Type` header reads as one value.
fn join_values(v: &HeaderValue) -> (r: String)
    ensures
        r@ == spec_joined_values(v.values()),
{
    match v {
        HeaderValue::Single(s) => {
            let mut out = String::new();
            out.append(s.as_str());
            proof {
                assert(out@ =~= spec_joined_values(v.values()));
            }
            out
        },
        HeaderValue::Multiple(vs) => {
            let mut out = String::new();
            let mut i: usize = 0;
            proof {
                assert(v.values().subrange(0, 0) =~= Seq::<Seq<char>>::empty());
            }
            #[verifier::loop_isolation(false)]
            while i < vs.len()
                invariant
                    i <= vs@.len(),
                    out@ == spec_joined_values(v.values().subrange(0, i as int)),
                decreases vs@.len() - i,
            {
                if i > 0 {
                    out.append("; ");
                }
                out.append(vs[i].as_str());
                proof {
                    let seg = v.values();
                    lemma_joined_snoc(seg.subrange(0, i as int), seg[i as int]);
                    assert(seg.subrange(0, i as int).push(seg[i as int]) =~= seg.subrange(
                        0,
                        i as int + 1,
                    ));
                    assert(seg[i as int] == vs@[i as int]@);
                    if i == 0 {
                        assert(out@ =~= spec_joined_values(seg.subrange(0, 1)));
                    } else {
                        assert(out@ =~= spec_joined_values(seg.subrange(0, i as int)) + "; "@
                            + seg[i as int]);
                        assert(out@ =~= spec_joined_values(seg.subrange(0, i as int + 1)));
                    }
                }
                i = i + 1;
            }
            proof {
                assert(v.values().subrange(0, v.values().len() as int) =~= v.values());
            }
            out
        },
    }
}

} // verus!
