//! The per-sample lane concatenator.  Given a sample's identifier, its
//! source directory and the directory listing, it keeps the candidate
//! filenames, classifies each by read direction, orders each direction
//! by full path, and merges the gzip-compressed lane contents into one
//! compressed stream per direction.

use vstd::prelude::*;
use crate::classify::is_read1;
use crate::classify::is_read2;
use crate::classify::matches_read1;
use crate::classify::matches_read2;
use crate::classify::read_match;
use crate::globpat::glob_match;
use crate::globpat::matches_sample_glob;
use crate::order::sort_strings;
use crate::order::sorted_lex;
use crate::order::views_of;
use crate::text::full_path_of;
use crate::text::make_full_path;
use crate::text::push_char;

verus! {

// ---------------------------------------------------------------------
// The compressed byte model
// ---------------------------------------------------------------------

/// What a gzip byte stream decodes to: the concatenated decompressed
/// content of its members, or nothing when the bytes are not a valid
/// stream.  This names the outcome of flate2's `MultiGzDecoder` reading
/// the bytes to the end, which depends on the bytes alone.
pub uninterp spec fn gunzip_of(data: Seq<u8>) -> Option<Seq<u8>>;

/// Relies on flate2's `bufread::MultiGzDecoder` over a byte slice and
/// std's `Read::read_to_end`: decodes all gzip members of `data` into
/// the concatenated decompressed bytes, or fails on an invalid stream.
/// The outcome is what `gunzip_of` names.
#[verifier::external_body]
fn gzip_decode(data: &Vec<u8>) -> (r: Option<Vec<u8>>)
    ensures
        r matches Some(out) ==> gunzip_of(data@) == Some(out@),
        r is None ==> gunzip_of(data@) is None,
{
    let mut dec = flate2::bufread::MultiGzDecoder::new(data.as_slice());
    let mut out: Vec<u8> = Vec::new();
    match std::io::Read::read_to_end(&mut dec, &mut out) {
        Ok(_) => Some(out),
        Err(_) => None,
    }
}

/// Relies on flate2's `write::GzEncoder` over a byte buffer (`new`,
/// `Write::write_all`, `finish`): compresses `data` into one gzip
/// stream.  Over an in-memory buffer the call always returns: every
/// error path in flate2's writer only propagates an error of the
/// underlying writer, and writing into a byte buffer cannot fail.
/// flate2 documents that `MultiGzDecoder` decodes the encoder's output
/// back to exactly the bytes written, stated through `gunzip_of`.
#[verifier::external_body]
fn gzip_encode(data: &Vec<u8>) -> (r: Vec<u8>)
    ensures
        gunzip_of(r@) == Some(data@),
{
    let mut enc = flate2::write::GzEncoder::new(Vec::new(), flate2::Compression::default());
    std::io::Write::write_all(&mut enc, data.as_slice())
        .expect("WRITING INTO A BYTE BUFFER CANNOT FAIL");
    enc.finish().expect("WRITING INTO A BYTE BUFFER CANNOT FAIL")
}

/// The views of a list of byte buffers.
pub open spec fn byte_views(v: Seq<Vec<u8>>) -> Seq<Seq<u8>> {
    v.map_values(|b: Vec<u8>| b@)
}

/// Every input is a valid gzip stream.
pub open spec fn all_decode(inputs: Seq<Seq<u8>>) -> bool {
    forall|j: int| #![trigger inputs[j]] 0 <= j < inputs.len() ==> gunzip_of(inputs[j]) is Some
}

/// The concatenation of the decoded contents of the inputs, in order.
pub open spec fn decoded_concat(inputs: Seq<Seq<u8>>) -> Seq<u8>
    decreases inputs.len(),
{
    if inputs.len() == 0 {
        Seq::empty()
    } else {
        decoded_concat(inputs.drop_last()) + (match gunzip_of(inputs.last()) {
            Some(c) => c,
            None => Seq::empty(),
        })
    }
}

/// The concatenation of byte buffers, in order.
pub open spec fn flat_of(parts: Seq<Seq<u8>>) -> Seq<u8>
    decreases parts.len(),
{
    if parts.len() == 0 {
        Seq::empty()
    } else {
        flat_of(parts.drop_last()) + parts.last()
    }
}

/// The lane input at this position is not a valid gzip stream: the
/// whole merge aborts, naming the first offender.
#[derive(Debug)]
pub struct InvalidStream {
    pub index: usize,
}

/// Decodes every input, in order; the first invalid stream aborts.
fn decode_all(inputs: &Vec<Vec<u8>>) -> (r: Result<Vec<Vec<u8>>, InvalidStream>)
    ensures
        match r {
            Ok(contents) => {
                &&& all_decode(byte_views(inputs@))
                &&& contents@.len() == inputs@.len()
                &&& forall|j: int|
                    #![trigger byte_views(contents@)[j]]
                    0 <= j < contents@.len() ==> gunzip_of(byte_views(inputs@)[j]) == Some(
                        byte_views(contents@)[j],
                    )
            },
            Err(e) => {
                &&& e.index < inputs@.len()
                &&& gunzip_of(byte_views(inputs@)[e.index as int]) is None
                &&& forall|j: int|
                    #![trigger byte_views(inputs@)[j]]
                    0 <= j < e.index ==> gunzip_of(byte_views(inputs@)[j]) is Some
            },
        },
{
    let ghost bv = byte_views(inputs@);
    let mut contents: Vec<Vec<u8>> = Vec::new();
    let mut i: usize = 0;
    proof {
        assert(byte_views(contents@) =~= Seq::<Seq<u8>>::empty());
    }
    while i < inputs.len()
        invariant
            0 <= i <= inputs@.len(),
            bv == byte_views(inputs@),
            bv.len() == inputs@.len(),
            contents@.len() == i,
            forall|j: int|
                #![trigger byte_views(contents@)[j]]
                0 <= j < i ==> gunzip_of(bv[j]) == Some(byte_views(contents@)[j]),
        decreases inputs@.len() - i,
    {
        proof {
            assert(bv[i as int] == inputs@[i as int]@);
        }
        match gzip_decode(&inputs[i]) {
            Some(c) => {
                let ghost before = byte_views(contents@);
                contents.push(c);
                proof {
                    assert(byte_views(contents@) =~= before.push(c@));
                }
            },
            None => {
                proof {
                    assert forall|j: int| #![trigger bv[j]] 0 <= j < i implies gunzip_of(
                        bv[j],
                    ) is Some by {
                        assert(gunzip_of(bv[j]) == Some(byte_views(contents@)[j]));
                    }
                }
                return Err(InvalidStream { index: i });
            },
        }
        i += 1;
    }
    proof {
        assert forall|j: int| #![trigger bv[j]] 0 <= j < bv.len() implies gunzip_of(
            bv[j],
        ) is Some by {
            assert(gunzip_of(bv[j]) == Some(byte_views(contents@)[j]));
        }
    }
    Ok(contents)
}

/// The byte buffers joined into one, in order.
pub fn concat_bytes(parts: &Vec<Vec<u8>>) -> (r: Vec<u8>)
    ensures
        r@ == flat_of(byte_views(parts@)),
{
    let ghost bv = byte_views(parts@);
    let mut out: Vec<u8> = Vec::new();
    let mut i: usize = 0;
    proof {
        assert(bv.take(0) =~= Seq::<Seq<u8>>::empty());
        assert(out@ =~= flat_of(bv.take(0)));
    }
    while i < parts.len()
        invariant
            0 <= i <= parts@.len(),
            bv == byte_views(parts@),
            bv.len() == parts@.len(),
            out@ == flat_of(bv.take(i as int)),
        decreases parts@.len() - i,
    {
        let part = &parts[i];
        let mut j: usize = 0;
        while j < part.len()
            invariant
                0 <= j <= part@.len(),
                part@ == bv[i as int],
                i < bv.len(),
                out@ == flat_of(bv.take(i as int)) + part@.take(j as int),
            decreases part@.len() - j,
        {
            out.push(part[j]);
            proof {
                assert(part@.take(j as int).push(part@[j as int]) =~= part@.take(j as int + 1));
                assert(out@ =~= flat_of(bv.take(i as int)) + part@.take(j as int + 1));
            }
            j += 1;
        }
        proof {
            assert(part@.take(part@.len() as int) =~= part@);
            assert(bv.take(i as int + 1).drop_last() =~= bv.take(i as int));
            assert(bv.take(i as int + 1).last() == bv[i as int]);
            assert(flat_of(bv.take(i as int + 1)) == flat_of(bv.take(i as int)) + bv[i as int]);
        }
        i += 1;
    }
    proof {
        assert(bv.take(parts@.len() as int) =~= bv);
    }
    out
}

/// Decoded contents concatenate to the decoded concatenation.
proof fn lemma_flat_decoded(inputs: Seq<Seq<u8>>, contents: Seq<Seq<u8>>)
    requires
        contents.len() == inputs.len(),
        forall|j: int|
            #![trigger contents[j]]
            0 <= j < contents.len() ==> gunzip_of(inputs[j]) == Some(contents[j]),
    ensures
        flat_of(contents) == decoded_concat(inputs),
    decreases inputs.len(),
{
    if inputs.len() > 0 {
        assert forall|j: int|
            #![trigger contents.drop_last()[j]]
            0 <= j < contents.drop_last().len() implies gunzip_of(inputs.drop_last()[j]) == Some(
            contents.drop_last()[j],
        ) by {
            assert(contents.drop_last()[j] == contents[j]);
            assert(inputs.drop_last()[j] == inputs[j]);
        }
        lemma_flat_decoded(inputs.drop_last(), contents.drop_last());
        assert(gunzip_of(inputs.last()) == Some(contents[inputs.len() - 1]));
    }
}

/// Merges gzip-compressed lane contents: each input is decoded, the
/// decoded bytes are concatenated in input order, and the whole is
/// recompressed as a single stream.  The merge succeeds exactly when
/// every input is a valid gzip stream, and the output then decodes to
/// the concatenation of what the inputs decode to; otherwise it aborts
/// naming the first invalid input.  The whole decoded content is held
/// in memory at once; nothing is streamed file by file.
pub fn merge_lane_contents(inputs: &Vec<Vec<u8>>) -> (r: Result<Vec<u8>, InvalidStream>)
    ensures
        r is Ok <==> all_decode(byte_views(inputs@)),
        r matches Ok(out) ==> gunzip_of(out@) == Some(decoded_concat(byte_views(inputs@))),
        r matches Err(e) ==> e.index < inputs@.len() && gunzip_of(
            byte_views(inputs@)[e.index as int],
        ) is None && (forall|j: int|
            #![trigger byte_views(inputs@)[j]]
            0 <= j < e.index ==> gunzip_of(byte_views(inputs@)[j]) is Some),
{
    let contents = match decode_all(inputs) {
        Ok(c) => c,
        Err(e) => {
            return Err(e);
        },
    };
    let whole = concat_bytes(&contents);
    proof {
        lemma_flat_decoded(byte_views(inputs@), byte_views(contents@));
    }
    Ok(gzip_encode(&whole))
}

// ---------------------------------------------------------------------
// The per-sample plan
// ---------------------------------------------------------------------

/// The filenames matching the sample's candidate pattern, in input order.
pub open spec fn glob_names(id: Seq<char>, fnames: Seq<Seq<char>>) -> Seq<Seq<char>>
    decreases fnames.len(),
{
    if fnames.len() == 0 {
        Seq::empty()
    } else {
        let prev = glob_names(id, fnames.drop_last());
        if glob_match(id, fnames.last()) {
            prev.push(fnames.last())
        } else {
            prev
        }
    }
}

/// The full paths of the filenames the read-direction predicate with
/// digit `d` accepts, in input order.
pub open spec fn read_paths(dir: Seq<char>, fnames: Seq<Seq<char>>, d: char) -> Seq<Seq<char>>
    decreases fnames.len(),
{
    if fnames.len() == 0 {
        Seq::empty()
    } else {
        let prev = read_paths(dir, fnames.drop_last(), d);
        if read_match(fnames.last(), d) {
            prev.push(full_path_of(dir, fnames.last()))
        } else {
            prev
        }
    }
}

/// One sample's concatenation state: the identifier, the directory the
/// lane files sit in, the classified and ordered lane paths for both
/// read directions, and the output root.
pub struct Concat {
    pub id: String,
    pub path: String,
    pub read_1: Vec<String>,
    pub read_2: Vec<String>,
    pub outdir: String,
}

impl Concat {
    /// A concatenator for one sample, with empty read sequences.
    pub fn new(id: &str, path: &str, output: &str) -> (r: Self)
        ensures
            r.id@ == id@,
            r.path@ == path@,
            r.outdir@ == output@,
            r.read_1@.len() == 0,
            r.read_2@.len() == 0,
    {
        Concat {
            id: String::from_str(id),
            path: String::from_str(path),
            outdir: String::from_str(output),
            read_1: Vec::new(),
            read_2: Vec::new(),
        }
    }

    /// Keeps the names in the sample directory's listing that match the
    /// candidate pattern `{id}*.f*.g*`, in listing order.
    pub fn glob_samples(&self, fnames: &Vec<String>) -> (r: Vec<String>)
        ensures
            views_of(r@) == glob_names(self.id@, views_of(fnames@)),
    {
        let ghost fv = views_of(fnames@);
        let mut r: Vec<String> = Vec::new();
        let mut i: usize = 0;
        proof {
            assert(fv.take(0) =~= Seq::<Seq<char>>::empty());
            assert(views_of(r@) =~= glob_names(self.id@, fv.take(0)));
        }
        while i < fnames.len()
            invariant
                0 <= i <= fnames@.len(),
                fv == views_of(fnames@),
                fv.len() == fnames@.len(),
                views_of(r@) == glob_names(self.id@, fv.take(i as int)),
            decreases fnames@.len() - i,
        {
            let f = &fnames[i];
            proof {
                assert(fv[i as int] == f@);
            }
            if matches_sample_glob(self.id.as_str(), f.as_str()) {
                let ghost before = views_of(r@);
                r.push(f.clone());
                proof {
                    assert(views_of(r@) =~= before.push(f@));
                }
            }
            proof {
                assert(fv.take(i as int + 1).drop_last() =~= fv.take(i as int));
                assert(fv.take(i as int + 1).last() == fv[i as int]);
            }
            i += 1;
        }
        proof {
            assert(fv.take(fnames@.len() as int) =~= fv);
        }
        r
    }

    /// Classifies candidate filenames into the two read sequences,
    /// appending the full path under the sample directory for each
    /// accepted name.  A name may match both directions, or neither.
    pub fn match_path_to_reads(&mut self, fnames: &Vec<String>)
        ensures
            views_of(final(self).read_1@) == views_of(old(self).read_1@) + read_paths(
                old(self).path@,
                views_of(fnames@),
                '1',
            ),
            views_of(final(self).read_2@) == views_of(old(self).read_2@) + read_paths(
                old(self).path@,
                views_of(fnames@),
                '2',
            ),
            final(self).id == old(self).id,
            final(self).path == old(self).path,
            final(self).outdir == old(self).outdir,
    {
        let ghost fv = views_of(fnames@);
        let ghost r1_0 = views_of(old(self).read_1@);
        let ghost r2_0 = views_of(old(self).read_2@);
        let mut i: usize = 0;
        proof {
            assert(fv.take(0) =~= Seq::<Seq<char>>::empty());
            assert(views_of(self.read_1@) =~= r1_0 + read_paths(self.path@, fv.take(0), '1'));
            assert(views_of(self.read_2@) =~= r2_0 + read_paths(self.path@, fv.take(0), '2'));
        }
        while i < fnames.len()
            invariant
                0 <= i <= fnames@.len(),
                fv == views_of(fnames@),
                fv.len() == fnames@.len(),
                views_of(self.read_1@) == r1_0 + read_paths(self.path@, fv.take(i as int), '1'),
                views_of(self.read_2@) == r2_0 + read_paths(self.path@, fv.take(i as int), '2'),
                self.id == old(self).id,
                self.path == old(self).path,
                self.outdir == old(self).outdir,
                r1_0 == views_of(old(self).read_1@),
                r2_0 == views_of(old(self).read_2@),
            decreases fnames@.len() - i,
        {
            let f = &fnames[i];
            proof {
                assert(fv[i as int] == f@);
            }
            if matches_read1(f.as_str()) {
                let p = make_full_path(self.path.as_str(), f.as_str());
                let ghost before = views_of(self.read_1@);
                self.read_1.push(p);
                proof {
                    assert(views_of(self.read_1@) =~= before.push(full_path_of(self.path@, f@)));
                }
            }
            if matches_read2(f.as_str()) {
                let p = make_full_path(self.path.as_str(), f.as_str());
                let ghost before = views_of(self.read_2@);
                self.read_2.push(p);
                proof {
                    assert(views_of(self.read_2@) =~= before.push(full_path_of(self.path@, f@)));
                }
            }
            proof {
                assert(fv.take(i as int + 1).drop_last() =~= fv.take(i as int));
                assert(fv.take(i as int + 1).last() == fv[i as int]);
                let p1 = read_paths(self.path@, fv.take(i as int), '1');
                let p2 = read_paths(self.path@, fv.take(i as int), '2');
                if is_read1(f@) {
                    assert(r1_0 + p1 + seq![full_path_of(self.path@, f@)] =~= r1_0 + p1.push(
                        full_path_of(self.path@, f@),
                    ));
                }
                if is_read2(f@) {
                    assert(r2_0 + p2 + seq![full_path_of(self.path@, f@)] =~= r2_0 + p2.push(
                        full_path_of(self.path@, f@),
                    ));
                }
            }
            i += 1;
        }
        proof {
            assert(fv.take(fnames@.len() as int) =~= fv);
        }
    }

    /// Whether the filename is classified Read-1.
    pub fn re_matches_r1(&self, fname: &str) -> (r: bool)
        ensures
            r == is_read1(fname@),
    {
        matches_read1(fname)
    }

    /// Whether the filename is classified Read-2.
    pub fn re_matches_r2(&self, fname: &str) -> (r: bool)
        ensures
            r == is_read2(fname@),
    {
        matches_read2(fname)
    }

    /// Sorts both read sequences by full path, ascending: the sole
    /// determinant of concatenation order.
    pub fn sort_results(&mut self)
        ensures
            sorted_lex(views_of(final(self).read_1@)),
            views_of(final(self).read_1@).to_multiset() == views_of(
                old(self).read_1@,
            ).to_multiset(),
            sorted_lex(views_of(final(self).read_2@)),
            views_of(final(self).read_2@).to_multiset() == views_of(
                old(self).read_2@,
            ).to_multiset(),
            final(self).id == old(self).id,
            final(self).path == old(self).path,
            final(self).outdir == old(self).outdir,
    {
        sort_strings(&mut self.read_1);
        sort_strings(&mut self.read_2);
    }

    /// The output path for a file of this sample:
    /// `{outdir}/{id}/{fname}`.
    pub fn get_output_fname(&self, fname: &str) -> (r: String)
        ensures
            r@ == self.outdir@ + seq!['/'] + self.id@ + seq!['/'] + fname@,
    {
        let mut out = String::new();
        out.append(self.outdir.as_str());
        push_char(&mut out, '/');
        out.append(self.id.as_str());
        push_char(&mut out, '/');
        out.append(fname);
        out
    }

    /// The Read-1 output filename: `{id}_R1.fastq.gz`.
    pub fn get_concat_name_r1(&self) -> (r: String)
        ensures
            r@ == self.id@ + "_R1.fastq.gz"@,
    {
        let mut out = String::new();
        out.append(self.id.as_str());
        out.append("_R1.fastq.gz");
        out
    }

    /// The Read-2 output filename: `{id}_R2.fastq.gz`.
    pub fn get_concat_name_r2(&self) -> (r: String)
        ensures
            r@ == self.id@ + "_R2.fastq.gz"@,
    {
        let mut out = String::new();
        out.append(self.id.as_str());
        out.append("_R2.fastq.gz");
        out
    }
}

} // verus!
