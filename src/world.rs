//! The walk against a fixed world: answered from the same file system and
//! repositories at every request, the walker ends with the result of the
//! recursive walk of that world.
//!
//! `heading` is where the walk ends from a given state. At the start it is
//! `walk_result`; answering the pending request from the world keeps it (the
//! steps' own contracts say that the walker's `request` afterwards is the
//! action they returned); and once the walk is done it is the result itself.
use vstd::prelude::*;
use crate::path::strings_view;
use crate::tree::{NodeView, insert_sorted};
use crate::walk::{
    Walker, Options, Probe, Listing, Discovery, WalkError, FrameView, ActionView, Stage,
    repository_result, settle, advance, after_inspection, after_listing, after_discovery,
    frames_view, frame_view, location_name, location_depth, request,
};

verus! {

/// `acc` with the node of a result joined in by name; no node and errors
/// leave it as it is.
pub open spec fn joined_into(acc: Seq<NodeView>, r: Result<Option<NodeView>, WalkError>) -> Seq<NodeView> {
    match r {
        Ok(Some(n)) => insert_sorted(acc, n),
        _ => acc,
    }
}

/// What the walk of the location `loc`, named `name`, with the depth budget
/// `depth` gives in the world where `probe` tells what is at each location
/// and `listing` what each directory holds: a repository is described; a
/// plain directory with budget left gives the directory of its entries'
/// results, the entries walked with one less; anything else gives no node.
pub open spec fn walk_at(
    probe: spec_fn(Seq<Seq<char>>) -> Probe,
    listing: spec_fn(Seq<Seq<char>>) -> Listing,
    opts: Options,
    loc: Seq<Seq<char>>,
    name: Seq<char>,
    depth: nat,
) -> Result<Option<NodeView>, WalkError>
    decreases depth, 1nat, 0nat,
{
    match probe(loc) {
        Probe::NotDirectory => Ok(None),
        Probe::Repository(rep) => repository_result(name, rep, opts),
        Probe::Directory => if depth == 0 {
            Ok(None)
        } else {
            match listing(loc) {
                Listing::Failed(m) => Err(WalkError::Listing(m)),
                Listing::Names(ns) => Ok(
                    Some(
                        NodeView::Branch {
                            name,
                            children: gather(
                                probe,
                                listing,
                                opts,
                                loc,
                                strings_view(ns@),
                                (depth - 1) as nat,
                                Seq::empty(),
                            ),
                        },
                    ),
                ),
            }
        },
    }
}

/// `acc` with the results of the entries `ns` of the directory at `loc`
/// joined in, the entries walked with the budget `d`, from the last one.
pub open spec fn gather(
    probe: spec_fn(Seq<Seq<char>>) -> Probe,
    listing: spec_fn(Seq<Seq<char>>) -> Listing,
    opts: Options,
    loc: Seq<Seq<char>>,
    ns: Seq<Seq<char>>,
    d: nat,
    acc: Seq<NodeView>,
) -> Seq<NodeView>
    decreases d + 1, 0nat, ns.len(),
{
    if ns.len() == 0 {
        acc
    } else {
        let x = ns.last();
        gather(
            probe,
            listing,
            opts,
            loc,
            ns.drop_last(),
            d,
            joined_into(acc, walk_at(probe, listing, opts, loc.push(x), x, d)),
        )
    }
}

/// The result of looking for a repository above the start.
pub open spec fn discovered(discovery: Discovery, start: Seq<char>, opts: Options) -> Result<
    Option<NodeView>,
    WalkError,
> {
    match discovery {
        Discovery::Found(rep) => repository_result(start, rep, opts),
        Discovery::NotFound => Err(WalkError::NotFound),
        Discovery::Failed(msg) => Err(WalkError::Repository(msg)),
    }
}

/// The result of a whole walk: the walk of the start, except that where it
/// gives no node, the result of looking for a repository above it.
pub open spec fn walk_result(
    probe: spec_fn(Seq<Seq<char>>) -> Probe,
    listing: spec_fn(Seq<Seq<char>>) -> Listing,
    discovery: Discovery,
    opts: Options,
    start: Seq<char>,
) -> Result<Option<NodeView>, WalkError> {
    resume(probe, listing, discovery, opts, start, Seq::empty(), walk_at(probe, listing, opts, Seq::empty(), start, opts.depth as nat))
}

/// Where the walk ends once the result `r` is handed to the directories
/// being walked: each joins it, walks its remaining entries and hands its own
/// result outward.
pub open spec fn resume(
    probe: spec_fn(Seq<Seq<char>>) -> Probe,
    listing: spec_fn(Seq<Seq<char>>) -> Listing,
    discovery: Discovery,
    opts: Options,
    start: Seq<char>,
    frames: Seq<FrameView>,
    r: Result<Option<NodeView>, WalkError>,
) -> Result<Option<NodeView>, WalkError>
    decreases frames.len(),
{
    if frames.len() == 0 {
        match r {
            Ok(None) => discovered(discovery, start, opts),
            _ => r,
        }
    } else {
        let top = frames.last();
        resume(
            probe,
            listing,
            discovery,
            opts,
            start,
            frames.drop_last(),
            Ok(
                Some(
                    NodeView::Branch {
                        name: top.name,
                        children: gather(
                            probe,
                            listing,
                            opts,
                            top.location,
                            top.pending,
                            (top.depth - 1) as nat,
                            joined_into(top.dir, r),
                        ),
                    },
                ),
            ),
        )
    }
}

/// Where the walk ends from a state of the walker and its latest request,
/// each request answered from the world.
pub open spec fn heading(
    probe: spec_fn(Seq<Seq<char>>) -> Probe,
    listing: spec_fn(Seq<Seq<char>>) -> Listing,
    discovery: Discovery,
    opts: Options,
    start: Seq<char>,
    state: (Seq<FrameView>, ActionView),
) -> Result<Option<NodeView>, WalkError> {
    let (frames, action) = state;
    match action {
        ActionView::Inspect(loc, _) => if frames.len() == 0 {
            resume(probe, listing, discovery, opts, start, frames, walk_at(probe, listing, opts, loc, start, opts.depth as nat))
        } else {
            resume(
                probe,
                listing,
                discovery,
                opts,
                start,
                frames,
                walk_at(probe, listing, opts, loc, loc.last(), (frames.last().depth - 1) as nat),
            )
        },
        ActionView::List(loc) => {
            let top = frames.last();
            resume(
                probe,
                listing,
                discovery,
                opts,
                start,
                frames.drop_last(),
                match listing(top.location) {
                    Listing::Failed(m) => Err(WalkError::Listing(m)),
                    Listing::Names(ns) => Ok(
                        Some(
                            NodeView::Branch {
                                name: top.name,
                                children: gather(
                                    probe,
                                    listing,
                                    opts,
                                    top.location,
                                    strings_view(ns@),
                                    (top.depth - 1) as nat,
                                    top.dir,
                                ),
                            },
                        ),
                    ),
                },
            )
        },
        ActionView::Discover(_) => discovered(discovery, start, opts),
        ActionView::Done(r) => r,
    }
}

proof fn lemma_settle_heading(
    probe: spec_fn(Seq<Seq<char>>) -> Probe,
    listing: spec_fn(Seq<Seq<char>>) -> Listing,
    discovery: Discovery,
    opts: Options,
    start: Seq<char>,
    frames: Seq<FrameView>,
    r: Result<Option<NodeView>, WalkError>,
)
    ensures
        heading(probe, listing, discovery, opts, start, settle(frames, r, opts))
            == resume(probe, listing, discovery, opts, start, frames, r),
    decreases frames.len(), 1nat,
{
    if frames.len() > 0 {
        let top = frames.last();
        let dir = joined_into(top.dir, r);
        let f2 = frames.drop_last().push(FrameView { dir, ..top });
        assert(settle(frames, r, opts) == advance(f2, opts));
        lemma_advance_heading(probe, listing, discovery, opts, start, f2);
        assert(f2.drop_last() =~= frames.drop_last());
    }
}

proof fn lemma_advance_heading(
    probe: spec_fn(Seq<Seq<char>>) -> Probe,
    listing: spec_fn(Seq<Seq<char>>) -> Listing,
    discovery: Discovery,
    opts: Options,
    start: Seq<char>,
    frames: Seq<FrameView>,
)
    requires
        frames.len() > 0,
    ensures
        ({
            let top = frames.last();
            heading(probe, listing, discovery, opts, start, advance(frames, opts)) == resume(
                probe,
                listing,
                discovery,
                opts,
                start,
                frames.drop_last(),
                Ok(
                    Some(
                        NodeView::Branch {
                            name: top.name,
                            children: gather(
                                probe,
                                listing,
                                opts,
                                top.location,
                                top.pending,
                                (top.depth - 1) as nat,
                                top.dir,
                            ),
                        },
                    ),
                ),
            )
        }),
    decreases frames.len(), 0nat,
{
    let top = frames.last();
    if top.pending.len() > 0 {
        let f2 = frames.drop_last().push(FrameView { pending: top.pending.drop_last(), ..top });
        let loc = top.location.push(top.pending.last());
        assert(loc.last() == top.pending.last());
        assert(f2.drop_last() =~= frames.drop_last());
        assert(f2.last() == FrameView { pending: top.pending.drop_last(), ..top });
    } else {
        let b = NodeView::Branch { name: top.name, children: top.dir };
        lemma_settle_heading(probe, listing, discovery, opts, start, frames.drop_last(), Ok(Some(b)));
    }
}

/// The walker at the start heads for the result of the whole walk.
pub proof fn law_walk_starts_toward_result(
    probe: spec_fn(Seq<Seq<char>>) -> Probe,
    listing: spec_fn(Seq<Seq<char>>) -> Listing,
    discovery: Discovery,
    opts: Options,
    start: Seq<char>,
)
    ensures
        heading(probe, listing, discovery, opts, start, (Seq::empty(), ActionView::Inspect(Seq::empty(), opts.summary)))
            == walk_result(probe, listing, discovery, opts, start),
{
}

/// Answering an inspection from the world keeps the walk heading where it
/// was.
pub proof fn law_inspection_keeps_heading(
    probe: spec_fn(Seq<Seq<char>>) -> Probe,
    listing: spec_fn(Seq<Seq<char>>) -> Listing,
    discovery: Discovery,
    w: Walker,
)
    requires
        w.wf(),
        w.stage == Stage::Inspecting,
    ensures
        heading(probe, listing, discovery, w.options, w.start_name@, after_inspection(w, probe(strings_view(w.inspecting@))))
            == heading(probe, listing, discovery, w.options, w.start_name@, (frames_view(w.frames@), request(w))),
{
    let opts = w.options;
    let start = w.start_name@;
    let fv = frames_view(w.frames@);
    let loc = strings_view(w.inspecting@);
    let p = probe(loc);
    if w.frames.len() > 0 {
        assert(loc.last() == location_name(w));
        assert(fv.last() == frame_view(w.frames@.last()));
    } else {
        assert(w.inspecting@.len() == 0);
    }
    let name = location_name(w);
    let here = walk_at(probe, listing, opts, loc, name, location_depth(w) as nat);
    match p {
        Probe::Directory => {
            if location_depth(w) > 0 {
                let nf = FrameView {
                    name,
                    location: loc,
                    depth: location_depth(w) as nat,
                    dir: Seq::empty(),
                    pending: Seq::empty(),
                };
                assert(fv.push(nf).drop_last() =~= fv);
                assert(fv.push(nf).last() == nf);
            } else {
                lemma_settle_heading(probe, listing, discovery, opts, start, fv, Ok(None));
            }
        },
        Probe::NotDirectory => {
            lemma_settle_heading(probe, listing, discovery, opts, start, fv, Ok(None));
        },
        Probe::Repository(rep) => {
            lemma_settle_heading(probe, listing, discovery, opts, start, fv, repository_result(name, rep, opts));
        },
    }
}

/// Answering a listing from the world keeps the walk heading where it was.
pub proof fn law_listing_keeps_heading(
    probe: spec_fn(Seq<Seq<char>>) -> Probe,
    listing: spec_fn(Seq<Seq<char>>) -> Listing,
    discovery: Discovery,
    w: Walker,
)
    requires
        w.wf(),
        w.stage == Stage::Listing,
    ensures
        heading(
            probe,
            listing,
            discovery,
            w.options,
            w.start_name@,
            after_listing(w, listing(frames_view(w.frames@).last().location)),
        ) == heading(probe, listing, discovery, w.options, w.start_name@, (frames_view(w.frames@), request(w))),
{
    let opts = w.options;
    let start = w.start_name@;
    let fv = frames_view(w.frames@);
    let top = fv.last();
    match listing(top.location) {
        Listing::Names(ns) => {
            let f2 = fv.drop_last().push(FrameView { pending: strings_view(ns@), ..top });
            lemma_advance_heading(probe, listing, discovery, opts, start, f2);
            assert(f2.drop_last() =~= fv.drop_last());
        },
        Listing::Failed(m) => {
            lemma_settle_heading(probe, listing, discovery, opts, start, fv.drop_last(), Err(WalkError::Listing(m)));
        },
    }
}

/// Answering the search for a repository from the world ends the walk where
/// it was heading.
pub proof fn law_discovery_keeps_heading(
    probe: spec_fn(Seq<Seq<char>>) -> Probe,
    listing: spec_fn(Seq<Seq<char>>) -> Listing,
    discovery: Discovery,
    w: Walker,
)
    requires
        w.stage == Stage::Discovering,
    ensures
        after_discovery(w, discovery) == heading(
            probe,
            listing,
            discovery,
            w.options,
            w.start_name@,
            (frames_view(w.frames@), request(w)),
        ),
{
}

} // verus!
