//! The chain reader: turns the host's buffer chain into an ordered list of
//! segments, and joins segments back into the logical payload.
//!
//! The reader decides, link by link, where the bytes of a segment live: in
//! memory, as the span `[pos, last)` of the link's buffer, or in a file, as
//! the range `[file_pos, file_last)` that must be mapped before it is read.
//! Mapping itself is left to the caller, which hands the mapped bytes back as
//! plain slices.
use vstd::prelude::*;

verus! {

/// Why a body could not be read or rewritten.
#[derive(Debug, Clone, Copy, PartialEq, Eq, Structural)]
pub enum BodyError {
    /// No body is present, or a file-backed link names no file.
    MissingBody,
    /// Mapping a file region into memory failed.
    MapFailed,
    /// Allocating from the request's arena failed.
    AllocFailed,
}

/// One link of the host's buffer chain, as the host describes it.
#[derive(Debug, Clone, Copy, PartialEq, Eq, Structural)]
pub struct Link {
    /// The bytes are directly addressable (temporary, mapped or read-only memory).
    pub in_memory: bool,
    /// Start of the memory span.
    pub pos: usize,
    /// End of the memory span.
    pub last: usize,
    /// The link references a file.
    pub has_file: bool,
    /// The file's descriptor.
    pub fd: i32,
    /// Start of the file range.
    pub file_pos: u64,
    /// End of the file range.
    pub file_last: u64,
}

/// Where the bytes of one segment live.
#[derive(Debug, Clone, Copy, PartialEq, Eq, Structural)]
pub enum SegmentSource {
    /// Borrow `[pos, last)` of the link's memory, without copying.
    Memory { pos: usize, last: usize },
    /// Map `len` bytes of file `fd` from `offset`, read-only and shared; the
    /// segment owns the mapping and releases it when it goes.
    File { fd: i32, offset: u64, len: u64 },
}

/// A link is well formed when its spans do not run backwards.
pub open spec fn link_wf(l: Link) -> bool {
    l.pos <= l.last && l.file_pos <= l.file_last
}

/// The link carries no bytes.
pub open spec fn link_is_empty(l: Link) -> bool {
    if l.in_memory {
        l.pos == l.last
    } else {
        l.file_pos == l.file_last
    }
}

/// Where a non-empty link's bytes live.
pub open spec fn link_source(l: Link) -> Result<SegmentSource, BodyError> {
    if l.in_memory {
        Ok(SegmentSource::Memory { pos: l.pos, last: l.last })
    } else if l.has_file {
        Ok(SegmentSource::File { fd: l.fd, offset: l.file_pos, len: (l.file_last - l.file_pos) as u64 })
    } else {
        Err(BodyError::MissingBody)
    }
}

/// The segments of a chain, in wire order, skipping links without bytes, or
/// the error of the first link that cannot be read.
pub open spec fn chain_plan(links: Seq<Link>) -> Result<Seq<SegmentSource>, BodyError>
    decreases links.len(),
{
    if links.len() == 0 {
        Ok(Seq::empty())
    } else {
        match chain_plan(links.drop_last()) {
            Err(e) => Err(e),
            Ok(p) => {
                let l = links.last();
                if link_is_empty(l) {
                    Ok(p)
                } else {
                    match link_source(l) {
                        Err(e) => Err(e),
                        Ok(s) => Ok(p.push(s)),
                    }
                }
            },
        }
    }
}

/// Whether a link carries no bytes; such links are skipped.
pub fn is_empty_link(l: &Link) -> (r: bool)
    ensures
        r == link_is_empty(*l),
{
    if l.in_memory {
        l.pos == l.last
    } else {
        l.file_pos == l.file_last
    }
}

/// Decides where one non-empty link's bytes live.
pub fn plan_link(l: &Link) -> (r: Result<SegmentSource, BodyError>)
    requires
        link_wf(*l),
    ensures
        r == link_source(*l),
{
    if l.in_memory {
        Ok(SegmentSource::Memory { pos: l.pos, last: l.last })
    } else if l.has_file {
        Ok(SegmentSource::File { fd: l.fd, offset: l.file_pos, len: l.file_last - l.file_pos })
    } else {
        Err(BodyError::MissingBody)
    }
}

/// Plans the segments of a request body: `MissingBody` when there is no
/// body, else the chain's plan.
pub fn plan_chain(body_present: bool, links: &Vec<Link>) -> (r: Result<Vec<SegmentSource>, BodyError>)
    requires
        forall|i: int| 0 <= i < links@.len() ==> link_wf(#[trigger] links@[i]),
    ensures
        !body_present ==> r == Err::<Vec<SegmentSource>, BodyError>(BodyError::MissingBody),
        body_present ==> match r {
            Ok(p) => chain_plan(links@) == Ok::<Seq<SegmentSource>, BodyError>(p@),
            Err(e) => chain_plan(links@) == Err::<Seq<SegmentSource>, BodyError>(e),
        },
{
    if !body_present {
        return Err(BodyError::MissingBody);
    }
    let mut plan: Vec<SegmentSource> = Vec::new();
    let mut i: usize = 0;
    while i < links.len()
        invariant
            i <= links@.len(),
            forall|j: int| 0 <= j < links@.len() ==> link_wf(#[trigger] links@[j]),
            chain_plan(links@.take(i as int)) == Ok::<Seq<SegmentSource>, BodyError>(plan@),
        decreases links.len() - i,
    {
        let l = &links[i];
        proof {
            assert(links@.take(i + 1).drop_last() =~= links@.take(i as int));
            assert(links@.take(i + 1).last() == links@[i as int]);
        }
        if !is_empty_link(l) {
            match plan_link(l) {
                Ok(s) => plan.push(s),
                Err(e) => {
                    proof {
                        lemma_plan_error_sticks(links@, i as int + 1);
                    }
                    return Err(e);
                },
            }
        }
        i += 1;
    }
    proof {
        assert(links@.take(links@.len() as int) =~= links@);
    }
    Ok(plan)
}

/// Once a prefix of the chain fails, the whole chain fails with that error.
pub proof fn lemma_plan_error_sticks(links: Seq<Link>, n: int)
    requires
        0 <= n <= links.len(),
        chain_plan(links.take(n)) is Err,
    ensures
        chain_plan(links) == chain_plan(links.take(n)),
    decreases links.len() - n,
{
    if n < links.len() {
        assert(links.take(n + 1).drop_last() =~= links.take(n));
        lemma_plan_error_sticks(links, n + 1);
    } else {
        assert(links.take(n) =~= links);
    }
}

/// How many bytes a link carries.
pub open spec fn link_len(l: Link) -> int {
    if l.in_memory {
        l.last - l.pos
    } else {
        l.file_last - l.file_pos
    }
}

/// How many bytes a planned segment covers.
pub open spec fn source_len(s: SegmentSource) -> int {
    match s {
        SegmentSource::Memory { pos, last } => last - pos,
        SegmentSource::File { len, .. } => len as int,
    }
}

/// The contents of the links that the plan keeps, in order, given what each
/// link holds.
pub open spec fn kept_contents(links: Seq<Link>, contents: Seq<Seq<u8>>) -> Seq<Seq<u8>>
    decreases links.len(),
{
    if links.len() == 0 || contents.len() == 0 {
        Seq::empty()
    } else {
        let rest = kept_contents(links.drop_last(), contents.drop_last());
        if link_is_empty(links.last()) {
            rest
        } else {
            rest.push(contents.last())
        }
    }
}

/// Reading a chain loses nothing: the plan has one segment for each link it
/// keeps, each covering as many bytes as its link, and the links it keeps
/// hold, joined in order, the whole payload of the chain.
pub proof fn lemma_plan_reconstructs_payload(links: Seq<Link>, contents: Seq<Seq<u8>>)
    requires
        links.len() == contents.len(),
        forall|i: int| 0 <= i < links.len() ==> link_wf(#[trigger] links[i]),
        forall|i: int| 0 <= i < links.len() ==> (#[trigger] contents[i]).len() == link_len(links[i]),
        chain_plan(links) is Ok,
    ensures
        chain_plan(links)->Ok_0.len() == kept_contents(links, contents).len(),
        forall|k: int| 0 <= k < kept_contents(links, contents).len() ==>
            source_len(#[trigger] chain_plan(links)->Ok_0[k]) == kept_contents(links, contents)[k].len(),
        flatten(kept_contents(links, contents)) == flatten(contents),
    decreases links.len(),
{
    if links.len() > 0 {
        let l = links.last();
        let c = contents.last();
        let lr = links.drop_last();
        let cr = contents.drop_last();
        assert forall|i: int| 0 <= i < lr.len() implies link_wf(#[trigger] lr[i]) by {
            assert(lr[i] == links[i]);
        }
        assert forall|i: int| 0 <= i < lr.len() implies (#[trigger] cr[i]).len() == link_len(lr[i]) by {
            assert(lr[i] == links[i] && cr[i] == contents[i]);
        }
        assert(link_wf(links[links.len() - 1]));
        assert(contents[contents.len() - 1].len() == link_len(links[links.len() - 1]));
        lemma_plan_reconstructs_payload(lr, cr);
        assert(contents =~= cr.push(c));
        lemma_flatten_append(cr, seq![c]);
        assert(cr + seq![c] =~= cr.push(c));
        let one = seq![c];
        assert(one.drop_last() =~= Seq::<Seq<u8>>::empty());
        assert(flatten(one.drop_last()) == Seq::<u8>::empty());
        assert(one.last() == c);
        assert(flatten(one) == flatten(one.drop_last()) + one.last());
        assert(flatten(one) =~= c);
        if link_is_empty(l) {
            assert(c =~= Seq::<u8>::empty());
            assert(flatten(contents) =~= flatten(cr) + Seq::<u8>::empty());
        } else {
            let rest = kept_contents(lr, cr);
            lemma_flatten_append(rest, seq![c]);
            assert(rest + seq![c] =~= rest.push(c));
        }
    } else {
        assert(contents =~= Seq::<Seq<u8>>::empty());
    }
}

/// The bytes of segments joined in order.
pub open spec fn flatten(segs: Seq<Seq<u8>>) -> Seq<u8>
    decreases segs.len(),
{
    if segs.len() == 0 {
        Seq::empty()
    } else {
        flatten(segs.drop_last()) + segs.last()
    }
}

/// The contents of the segments a chain reader produced.
pub open spec fn segment_bytes(segs: Seq<&[u8]>) -> Seq<Seq<u8>> {
    segs.map_values(|s: &[u8]| s@)
}

/// The logical payload: the segments' bytes joined in wire order, without
/// copying anything twice or leaving anything out.
pub fn concatenate(segs: &Vec<&[u8]>) -> (r: Vec<u8>)
    ensures
        r@ == flatten(segment_bytes(segs@)),
{
    let mut out: Vec<u8> = Vec::new();
    let mut k: usize = 0;
    while k < segs.len()
        invariant
            k <= segs@.len(),
            out@ == flatten(segment_bytes(segs@).take(k as int)),
        decreases segs.len() - k,
    {
        let seg: &[u8] = segs[k];
        let ghost before = out@;
        let mut i: usize = 0;
        while i < seg.len()
            invariant
                i <= seg@.len(),
                out@ == before + seg@.subrange(0, i as int),
            decreases seg.len() - i,
        {
            out.push(seg[i]);
            i += 1;
            assert(out@ =~= before + seg@.subrange(0, i as int));
        }
        proof {
            let all = segment_bytes(segs@);
            assert(all.take(k + 1).drop_last() =~= all.take(k as int));
            assert(all.take(k + 1).last() == seg@);
            assert(seg@.subrange(0, seg@.len() as int) =~= seg@);
        }
        k += 1;
    }
    proof {
        assert(segment_bytes(segs@).take(segs@.len() as int) =~= segment_bytes(segs@));
    }
    out
}

/// Joining two runs of segments joins their payloads.
pub proof fn lemma_flatten_append(a: Seq<Seq<u8>>, b: Seq<Seq<u8>>)
    ensures
        flatten(a + b) == flatten(a) + flatten(b),
    decreases b.len(),
{
    if b.len() == 0 {
        assert(a + b =~= a);
        assert(flatten(a) + Seq::<u8>::empty() =~= flatten(a));
    } else {
        lemma_flatten_append(a, b.drop_last());
        assert((a + b).drop_last() =~= a + b.drop_last());
        assert((a + b).last() == b.last());
        assert(flatten(a + b.drop_last()) + b.last() =~= flatten(a) + (flatten(b.drop_last()) + b.last()));
    }
}

} // verus!
