use vstd::prelude::*;

use crate::directory::{build_directory, built_from, subs_wf, Resolved};
use crate::listing::{entry_ok, label, lemma_scanned_insert, scanned, Listings, Report, PLACEHOLDER_NAME};
use crate::node::Node;
use crate::position::{
    advanced, ahead, lemma_ahead_advance, lemma_ahead_pop_advance, lemma_ahead_push, lemma_not_ahead_advance,
    lemma_not_ahead_push,
};

verus! {

/// Why an entry was left out of the tree.
#[derive(Debug, Clone, PartialEq, Eq)]
pub enum SkipReason {
    EntryUnresolvable,
    KindUnknown,
    MetadataUnreadable,
}

/// A diagnostic for something the scan could not read.
#[derive(Debug, Clone, PartialEq, Eq)]
pub enum Notice {
    /// The directory `dir` could not be listed and stands as empty.
    Unreadable { dir: usize },
    /// Entry `entry` of the listing of `dir` was left out.
    Skipped { dir: usize, entry: usize, reason: SkipReason },
}

/// What the caller must do next for the scan to go on.
#[derive(Debug, Clone, PartialEq, Eq)]
pub enum Request {
    /// List the directory `dir` and hand the listing to `receive`.
    List { dir: usize },
    /// The scan is over: `finish` hands out the tree.
    Finished,
}

/// A directory whose listing is being worked through.
pub struct Frame {
    /// The caller's handle of the directory.
    pub dir: usize,
    /// The depth budget of this directory, at least one.
    pub depth: usize,
    pub reports: Vec<Report>,
    /// How the first entries of `reports` were settled.
    pub done: Vec<Resolved>,
}

/// A depth-bounded scan of a directory tree, driven by its caller: it asks for one
/// listing at a time and builds the size profile bottom-up, depth first.
pub struct Scanner {
    /// The depth budget of the root.
    pub depth: usize,
    /// The caller's handle of the root directory.
    pub root: usize,
    /// The directories that are open, from the root down.
    pub frames: Vec<Frame>,
    /// The finished tree.
    pub result: Option<Node>,
    /// Diagnostics not handed out yet.
    pub notices: Vec<Notice>,
    /// The listings received so far, by position.
    pub seen: Ghost<Listings>,
    /// How many of the diagnostics met so far were handed out.
    pub drained: Ghost<nat>,
}

/// The next entry of the frame is a subdirectory that must be listed.
pub open spec fn waits(f: Frame) -> bool {
    &&& f.done.len() < f.reports.len()
    &&& f.reports@[f.done.len() as int] is Directory
    &&& f.depth > 1
}

/// The frame at position `pos` holds the listing seen there, and its settled
/// entries agree with that listing.
pub open spec fn frame_ok(f: Frame, fs: Listings, pos: Seq<int>) -> bool {
    &&& f.depth >= 1
    &&& f.done.len() <= f.reports.len()
    &&& fs.contains_key(pos)
    &&& fs[pos] == Some(f.reports@)
    &&& forall|i: int|
        0 <= i < f.done.len() ==> entry_ok(#[trigger] f.reports@[i], f.done@[i], fs, pos.push(i), f.depth as nat)
    &&& subs_wf(f.done@)
}

/// Where the walk stands: for each open directory, the entry it is at.
pub open spec fn cursor(frames: Seq<Frame>) -> Seq<int> {
    Seq::new(frames.len(), |k: int| frames[k].done.len() as int)
}

proof fn lemma_cursor_push(s: Seq<Frame>, f: Frame)
    ensures
        cursor(s.push(f)) == cursor(s).push(f.done.len() as int),
{
    assert(cursor(s.push(f)) =~= cursor(s).push(f.done.len() as int));
}

/// The work left in one frame: its unsettled entries, and closing it.
pub open spec fn cost(f: Frame) -> nat {
    (if f.done.len() <= f.reports.len() {
        (f.reports.len() - f.done.len()) as nat
    } else {
        0
    }) + 1
}

/// The work left: entries not settled yet, and frames not closed yet.
pub open spec fn remaining(s: Seq<Frame>) -> nat
    decreases s.len(),
{
    if s.len() == 0 {
        0
    } else {
        remaining(s.drop_last()) + cost(s.last())
    }
}

proof fn lemma_remaining_push(s: Seq<Frame>, f: Frame)
    ensures
        remaining(s.push(f)) == remaining(s) + cost(f),
{
    assert(s.push(f).drop_last() =~= s);
}

/// A frame stays as it was when a listing is added at a position that none of its
/// settled entries leads to.
proof fn lemma_frame_insert(f: Frame, fs: Listings, pos: Seq<int>, q: Seq<int>, v: Option<Seq<Report>>)
    requires
        frame_ok(f, fs, pos),
        pos != q,
        forall|i: int| 0 <= i < f.done.len() ==> !(#[trigger] pos.push(i)).is_prefix_of(q),
    ensures
        frame_ok(f, fs.insert(q, v), pos),
{
    assert forall|i: int| 0 <= i < f.done.len() implies entry_ok(
        #[trigger] f.reports@[i],
        f.done@[i],
        fs.insert(q, v),
        pos.push(i),
        f.depth as nat,
    ) by {
        assert(entry_ok(f.reports@[i], f.done@[i], fs, pos.push(i), f.depth as nat));
        assert(!pos.push(i).is_prefix_of(q));
        if let Resolved::Sub { node, .. } = f.done@[i] {
            if f.reports@[i] is Directory {
                lemma_scanned_insert(node, fs, pos.push(i), (f.depth - 1) as nat, q, v);
            }
        }
    }
}

/// The diagnostic for an entry that is left out, if it is.
pub open spec fn skip_notice(rep: Report, dir: usize, i: nat) -> Seq<Notice> {
    match rep {
        Report::Unresolvable => seq![Notice::Skipped { dir, entry: i as usize, reason: SkipReason::EntryUnresolvable }],
        Report::Untyped => seq![Notice::Skipped { dir, entry: i as usize, reason: SkipReason::KindUnknown }],
        Report::File { len: None, .. } => seq![
            Notice::Skipped { dir, entry: i as usize, reason: SkipReason::MetadataUnreadable },
        ],
        _ => seq![],
    }
}

/// The diagnostics of a scan of the directory `dir` at `pos` with budget `d`, in the
/// order the walk meets them.
pub open spec fn dir_notices(fs: Listings, pos: Seq<int>, dir: usize, d: nat) -> Seq<Notice>
    decreases d, 1nat, 0nat,
{
    if d == 0 || !fs.contains_key(pos) {
        seq![]
    } else {
        match fs[pos] {
            None => seq![Notice::Unreadable { dir }],
            Some(reps) => listing_notices(reps, reps.len(), fs, pos, dir, d),
        }
    }
}

/// The diagnostics of the first `k` entries of the listing of `dir`.
pub open spec fn listing_notices(reps: Seq<Report>, k: nat, fs: Listings, pos: Seq<int>, dir: usize, d: nat) -> Seq<
    Notice,
>
    decreases d, 0nat, k,
{
    if k == 0 || k > reps.len() {
        seq![]
    } else {
        let i = (k - 1) as nat;
        listing_notices(reps, i, fs, pos, dir, d) + match reps[i as int] {
            Report::Directory { dir: h, .. } => if d > 1 {
                dir_notices(fs, pos.push(i as int), h, (d - 1) as nat)
            } else {
                seq![]
            },
            r => skip_notice(r, dir, i),
        }
    }
}

/// The diagnostics met so far in the open frames.
pub open spec fn open_notices(frames: Seq<Frame>, fs: Listings) -> Seq<Notice>
    decreases frames.len(),
{
    if frames.len() == 0 {
        seq![]
    } else {
        let f = frames.last();
        open_notices(frames.drop_last(), fs) + listing_notices(
            f.reports@,
            f.done.len() as nat,
            fs,
            cursor(frames.drop_last()),
            f.dir,
            f.depth as nat,
        )
    }
}

proof fn lemma_dir_notices_insert(fs: Listings, p: Seq<int>, dir: usize, d: nat, q: Seq<int>, v: Option<Seq<Report>>)
    requires
        !p.is_prefix_of(q),
    ensures
        dir_notices(fs.insert(q, v), p, dir, d) == dir_notices(fs, p, dir, d),
    decreases d, 1nat, 0nat,
{
    assert(p != q);
    if d > 0 && fs.contains_key(p) {
        if let Some(reps) = fs[p] {
            lemma_listing_notices_insert(reps, reps.len(), fs, p, dir, d, q, v);
        }
    }
}

proof fn lemma_listing_notices_insert(
    reps: Seq<Report>,
    k: nat,
    fs: Listings,
    p: Seq<int>,
    dir: usize,
    d: nat,
    q: Seq<int>,
    v: Option<Seq<Report>>,
)
    requires
        forall|i: int| 0 <= i < k ==> !(#[trigger] p.push(i)).is_prefix_of(q),
    ensures
        listing_notices(reps, k, fs.insert(q, v), p, dir, d) == listing_notices(reps, k, fs, p, dir, d),
    decreases d, 0nat, k,
{
    if k > 0 && k <= reps.len() {
        let i = (k - 1) as nat;
        lemma_listing_notices_insert(reps, i, fs, p, dir, d, q, v);
        if d > 1 {
            assert(!p.push(i as int).is_prefix_of(q));
            lemma_dir_notices_insert(fs, p.push(i as int), reps[i as int]->Directory_dir, (d - 1) as nat, q, v);
        }
    }
}

proof fn lemma_open_notices_insert(frames: Seq<Frame>, fs: Listings, q: Seq<int>, v: Option<Seq<Report>>)
    requires
        forall|k: int, i: int|
            0 <= k < frames.len() && 0 <= i < frames[k].done.len() ==> !(#[trigger] cursor(frames).take(k).push(
                i,
            )).is_prefix_of(q),
    ensures
        open_notices(frames, fs.insert(q, v)) == open_notices(frames, fs),
    decreases frames.len(),
{
    if frames.len() > 0 {
        let d = frames.drop_last();
        let m = d.len() as int;
        let f = frames.last();
        assert forall|k: int, i: int|
            0 <= k < d.len() && 0 <= i < d[k].done.len() implies !(#[trigger] cursor(d).take(k).push(
                i,
            )).is_prefix_of(q) by {
            assert(cursor(d).take(k) =~= cursor(frames).take(k));
            assert(d[k] == frames[k]);
        }
        lemma_open_notices_insert(d, fs, q, v);
        assert(cursor(d) =~= cursor(frames).take(m));
        assert forall|i: int| 0 <= i < f.done.len() implies !(#[trigger] cursor(d).push(i)).is_prefix_of(q) by {
            assert(!cursor(frames).take(m).push(i).is_prefix_of(q));
        }
        lemma_listing_notices_insert(f.reports@, f.done.len() as nat, fs, cursor(d), f.dir, f.depth as nat, q, v);
    }
}

fn name_of(name: &Option<String>) -> (r: String)
    ensures
        r@ == label(*name),
{
    match name {
        Some(s) => s.clone(),
        None => PLACEHOLDER_NAME.to_owned(),
    }
}

impl Scanner {
    /// The open frames sit at the positions the cursor leads through, each with one
    /// level of budget less than its parent, and all but the last wait for a
    /// subdirectory.
    pub open spec fn frames_ok(&self) -> bool {
        &&& forall|k: int|
            0 <= k < self.frames.len() ==> frame_ok(#[trigger] self.frames@[k], self.seen@, cursor(self.frames@).take(k))
                && self.frames@[k].depth == self.depth - k
        &&& forall|k: int| 0 <= k < self.frames.len() - 1 ==> waits(#[trigger] self.frames@[k])
        &&& forall|k: int|
            0 < k < self.frames.len() ==> (#[trigger] self.frames@[k]).dir == self.frames@[k - 1].reports@[self.frames@[k
                - 1].done.len() as int]->Directory_dir
        &&& self.frames.len() > 0 ==> self.frames@[0].dir == self.root
    }

    /// The directory whose listing is asked for next.
    pub open spec fn pending_dir(&self) -> usize {
        if self.frames.len() == 0 {
            self.root
        } else {
            let f = self.frames@.last();
            f.reports@[f.done.len() as int]->Directory_dir
        }
    }

    /// Every diagnostic met so far, in order; once the scan is over, all those of
    /// the listings received.
    pub open spec fn walk(&self) -> Seq<Notice> {
        if self.result is Some {
            dir_notices(self.seen@, Seq::empty(), self.root, self.depth as nat)
        } else {
            open_notices(self.frames@, self.seen@)
        }
    }

    /// The diagnostics not handed out yet are the last ones met.
    pub open spec fn notes_ok(&self) -> bool {
        &&& self.drained@ <= self.walk().len()
        &&& self.notices@ == self.walk().skip(self.drained@ as int)
    }

    /// No listing has been seen where the walk has not been yet.
    pub open spec fn fresh(&self) -> bool {
        forall|p: Seq<int>| #[trigger] self.seen@.contains_key(p) ==> !ahead(p, cursor(self.frames@))
    }

    /// The frames are in order, no listing was seen ahead of the walk, and a finished
    /// tree is what a scan of the listings seen makes of the root.
    pub open spec fn inv(&self) -> bool {
        &&& self.frames_ok()
        &&& self.result is None ==> self.depth > 0 && self.fresh()
        &&& self.result matches Some(n) ==> self.frames.len() == 0 && n.wf() && scanned(
            n,
            self.seen@,
            Seq::empty(),
            self.depth as nat,
        )
    }

    /// The scan waits for its caller: it is finished, or needs a listing.
    pub open spec fn settled(&self) -> bool {
        self.result is Some || self.frames.len() == 0 || waits(self.frames@.last())
    }

    pub open spec fn wf(&self) -> bool {
        self.inv() && self.settled() && self.notes_ok()
    }

    /// The position of the directory whose listing is asked for next.
    pub open spec fn wanted(&self) -> Seq<int> {
        cursor(self.frames@)
    }

    /// What the caller is asked to do next.
    pub open spec fn next_request(&self) -> Request {
        if self.result is Some {
            Request::Finished
        } else if self.frames.len() == 0 {
            Request::List { dir: self.root }
        } else {
            let f = self.frames@.last();
            Request::List { dir: f.reports@[f.done.len() as int]->Directory_dir }
        }
    }

    /// Starts a scan of the directory `root` with a budget of `depth` levels. With no
    /// budget the directory is not read at all and the scan is already over.
    pub fn new(root: usize, depth: usize) -> (r: Scanner)
        ensures
            r.wf(),
            r.depth == depth,
            r.root == root,
            r.frames.len() == 0,
            r.notices@.len() == 0,
            r.seen@ == Listings::empty(),
            r.walk().len() == 0,
            depth == 0 ==> r.result is Some && r.result->0.size == 0 && r.result->0.is_bare(),
            depth > 0 ==> r.result is None,
    {
        let result = if depth == 0 {
            Some(Node::empty())
        } else {
            None
        };
        let r = Scanner {
            depth,
            root,
            frames: Vec::new(),
            result,
            notices: Vec::new(),
            seen: Ghost(Map::empty()),
            drained: Ghost(0),
        };
        assert(r.notices@ =~= r.walk().skip(0));
        r
    }

    /// What the caller must do next. A listing is asked for only while fewer
    /// directories than the depth budget are open, so no directory deeper than the
    /// budget is ever read.
    pub fn request(&self) -> (r: Request)
        requires
            self.wf(),
        ensures
            r == self.next_request(),
            r is List ==> self.frames.len() < self.depth,
    {
        if self.result.is_some() {
            Request::Finished
        } else if self.frames.len() == 0 {
            Request::List { dir: self.root }
        } else {
            let f = &self.frames[self.frames.len() - 1];
            match &f.reports[f.done.len()] {
                Report::Directory { dir, .. } => Request::List { dir: *dir },
                _ => Request::Finished,
            }
        }
    }

    /// Hands the finished tree of the directory at the cursor to its parent, or makes
    /// it the result where it is the root.
    fn deliver(&mut self, node: Node)
        requires
            old(self).frames_ok(),
            old(self).result is None,
            old(self).depth >= old(self).frames.len(),
            old(self).frames.len() > 0 ==> waits(old(self).frames@.last()),
            old(self).frames.len() > 0 ==> forall|p: Seq<int>|
                #[trigger] old(self).seen@.contains_key(p) ==> !ahead(p, advanced(cursor(old(self).frames@))),
            node.wf(),
            scanned(node, old(self).seen@, cursor(old(self).frames@), (old(self).depth - old(self).frames.len()) as nat),
        ensures
            final(self).inv(),
            final(self).depth == old(self).depth,
            final(self).root == old(self).root,
            final(self).notices == old(self).notices,
            final(self).seen == old(self).seen,
            final(self).drained == old(self).drained,
            final(self).walk() == old(self).walk() + dir_notices(
                old(self).seen@,
                cursor(old(self).frames@),
                old(self).pending_dir(),
                (old(self).depth - old(self).frames.len()) as nat,
            ),
            old(self).frames.len() == 0 ==> final(self).result == Some(node),
            old(self).frames.len() > 0 ==> final(self).result is None && remaining(final(self).frames@) + 1
                == remaining(old(self).frames@),
    {
        if self.frames.len() == 0 {
            assert(cursor(self.frames@) =~= Seq::<int>::empty());
            self.result = Some(node);
            assert(dir_notices(self.seen@, Seq::empty(), self.root, self.depth as nat) =~= Seq::<Notice>::empty() + dir_notices(
                self.seen@,
                Seq::empty(),
                self.root,
                self.depth as nat,
            ));
        } else {
            let ghost old_frames = self.frames@;
            let ghost rest = self.frames@.drop_last();
            let ghost cur = cursor(old_frames);
            let mut parent = self.frames.pop().unwrap();
            assert(self.frames@ =~= rest);
            assert(old_frames =~= rest.push(parent));
            let ghost before = parent;
            let ghost m = rest.len() as int;
            proof {
                lemma_cursor_push(rest, before);
                assert(cur.take(m) =~= cursor(rest));
                assert(frame_ok(before, self.seen@, cur.take(m)));
                assert(cur =~= cursor(rest).push(before.done.len() as int));
            }
            let name = match &parent.reports[parent.done.len()] {
                Report::Directory { name, .. } => name_of(name),
                _ => String::new(),
            };
            parent.done.push(Resolved::Sub { name, node });
            assert(parent.done@.drop_last() =~= before.done@);
            assert(frame_ok(parent, self.seen@, cursor(rest))) by {
                assert forall|i: int| 0 <= i < parent.done.len() implies entry_ok(
                    #[trigger] parent.reports@[i],
                    parent.done@[i],
                    self.seen@,
                    cursor(rest).push(i),
                    parent.depth as nat,
                ) by {
                    if i < before.done.len() {
                        assert(before.done@[i] == parent.done@[i]);
                    } else {
                        assert(cursor(rest).push(i) == cur);
                    }
                }
            }
            proof {
                lemma_remaining_push(rest, before);
                lemma_remaining_push(rest, parent);
                lemma_cursor_push(rest, parent);
                assert(cursor(rest.push(parent)) =~= advanced(cur));
            }
            self.frames.push(parent);
            assert(self.frames@ =~= rest.push(parent));
            assert(self.frames@.drop_last() =~= rest);
            assert(old_frames.drop_last() =~= rest);
            assert(open_notices(self.frames@, self.seen@) =~= open_notices(old_frames, self.seen@) + dir_notices(
                self.seen@,
                cur,
                before.reports@[before.done.len() as int]->Directory_dir,
                (before.depth - 1) as nat,
            ));
            assert forall|k: int| 0 < k < self.frames.len() implies (#[trigger] self.frames@[k]).dir
                == self.frames@[k - 1].reports@[self.frames@[k - 1].done.len() as int]->Directory_dir by {
                assert(old_frames[k].dir == old_frames[k - 1].reports@[old_frames[k - 1].done.len() as int]->Directory_dir);
                assert(self.frames@[k - 1] == old_frames[k - 1]);
            }
            assert forall|k: int| 0 <= k < self.frames.len() implies frame_ok(
                #[trigger] self.frames@[k],
                self.seen@,
                cursor(self.frames@).take(k),
            ) && self.frames@[k].depth == self.depth - k by {
                if k < m {
                    assert(cursor(self.frames@).take(k) =~= cur.take(k));
                    assert(self.frames@[k] == old_frames[k]);
                } else {
                    assert(cursor(self.frames@).take(k) =~= cursor(rest));
                }
            }
        }
    }

    /// Works through the open listings until a listing is needed or the tree is done.
    fn settle(&mut self)
        requires
            old(self).inv(),
            old(self).notes_ok(),
        ensures
            final(self).wf(),
            final(self).depth == old(self).depth,
            final(self).root == old(self).root,
            final(self).seen == old(self).seen,
            final(self).drained == old(self).drained,
            old(self).walk().is_prefix_of(final(self).walk()),
    {
        let ghost w0 = self.walk();
        while !(self.result.is_some() || self.frames.len() == 0 || self.top_waits())
            invariant
                self.inv(),
                self.notes_ok(),
                self.depth == old(self).depth,
                self.root == old(self).root,
                self.seen == old(self).seen,
                self.drained == old(self).drained,
                w0 == old(self).walk(),
                w0.is_prefix_of(self.walk()),
            decreases remaining(self.frames@),
        {
            let ghost walk_before = self.walk();
            let ghost n0 = self.notices@;
            let ghost old_frames = self.frames@;
            let ghost rest = self.frames@.drop_last();
            let ghost cur = cursor(old_frames);
            let ghost m = rest.len() as int;
            let mut top = self.frames.pop().unwrap();
            assert(self.frames@ =~= rest);
            assert(old_frames =~= rest.push(top));
            let ghost before = top;
            proof {
                lemma_cursor_push(rest, before);
                lemma_remaining_push(rest, before);
                assert(cur.take(m) =~= cursor(rest));
                assert(frame_ok(before, self.seen@, cursor(rest)));
                assert forall|k: int| 0 <= k < rest.len() implies frame_ok(
                    #[trigger] rest[k],
                    self.seen@,
                    cursor(rest).take(k),
                ) && rest[k].depth == self.depth - k by {
                    assert(cursor(rest).take(k) =~= cur.take(k));
                    assert(rest[k] == old_frames[k]);
                }
            }
            let i = top.done.len();
            if i == top.reports.len() {
                let Frame { done, .. } = top;
                let node = build_directory(done);
                proof {
                    let fs = self.seen@;
                    let pos = cursor(rest);
                    let rs = before.done@;
                    assert(rs.len() == before.reports@.len());
                    assert(forall|j: int|
                        0 <= j < before.reports@.len() ==> entry_ok(before.reports@[j], #[trigger] rs[j], fs, pos.push(j), before.depth as nat));
                    assert(built_from(node, rs));
                    assert(scanned(node, fs, pos, before.depth as nat));
                    if m > 0 {
                        assert forall|p: Seq<int>| #[trigger] fs.contains_key(p) implies !ahead(p, advanced(cursor(rest))) by {
                            if ahead(p, advanced(cursor(rest))) {
                                assert(cursor(rest) =~= cur.drop_last());
                                lemma_ahead_pop_advance(p, cur);
                            }
                        }
                        assert(before.dir == rest[m - 1].reports@[rest[m - 1].done.len() as int]->Directory_dir);
                    }
                    assert(old_frames.drop_last() =~= rest);
                    assert(listing_notices(before.reports@, before.done.len() as nat, fs, pos, before.dir, before.depth as nat)
                        == dir_notices(fs, pos, before.dir, before.depth as nat));
                }
                self.deliver(node);
                assert(self.walk() =~= walk_before);
            } else {
                let res = match &top.reports[i] {
                    Report::File { name, len: Some(n) } => Resolved::Leaf { name: name_of(name), size: *n },
                    Report::File { len: None, .. } => {
                        self.notices.push(
                            Notice::Skipped { dir: top.dir, entry: i, reason: SkipReason::MetadataUnreadable },
                        );
                        Resolved::Skipped
                    },
                    Report::Directory { name, .. } => Resolved::Sub { name: name_of(name), node: Node::empty() },
                    Report::Unresolvable => {
                        self.notices.push(
                            Notice::Skipped { dir: top.dir, entry: i, reason: SkipReason::EntryUnresolvable },
                        );
                        Resolved::Skipped
                    },
                    Report::Untyped => {
                        self.notices.push(
                            Notice::Skipped { dir: top.dir, entry: i, reason: SkipReason::KindUnknown },
                        );
                        Resolved::Skipped
                    },
                };
                let ghost added: Seq<Notice> = match before.reports@[i as int] {
                    Report::Directory { .. } => seq![],
                    r => skip_notice(r, before.dir, i as nat),
                };
                assert(self.notices@ =~= n0 + added);
                top.done.push(res);
                assert(top.done@.drop_last() =~= before.done@);
                assert(frame_ok(top, self.seen@, cursor(rest))) by {
                    assert forall|k: int| 0 <= k < top.done.len() implies entry_ok(
                        #[trigger] top.reports@[k],
                        top.done@[k],
                        self.seen@,
                        cursor(rest).push(k),
                        top.depth as nat,
                    ) by {
                        if k < before.done.len() {
                            assert(before.done@[k] == top.done@[k]);
                        }
                    }
                }
                proof {
                    lemma_remaining_push(rest, top);
                    lemma_cursor_push(rest, top);
                    assert(cursor(rest.push(top)) =~= advanced(cur));
                    assert forall|p: Seq<int>| #[trigger] self.seen@.contains_key(p) implies !ahead(p, advanced(cur)) by {
                        if ahead(p, advanced(cur)) {
                            lemma_ahead_advance(p, cur);
                        }
                    }
                }
                self.frames.push(top);
                assert(self.frames@ =~= rest.push(top));
                assert(self.frames@.drop_last() =~= rest);
                assert(old_frames.drop_last() =~= rest);
                assert(self.walk() =~= walk_before + added);
                assert(self.notices@ =~= self.walk().skip(self.drained@ as int));
                assert(w0 =~= self.walk().subrange(0, w0.len() as int));
                assert forall|k: int| 0 < k < self.frames.len() implies (#[trigger] self.frames@[k]).dir
                    == self.frames@[k - 1].reports@[self.frames@[k - 1].done.len() as int]->Directory_dir by {
                    assert(old_frames[k].dir == old_frames[k - 1].reports@[old_frames[k - 1].done.len() as int]->Directory_dir);
                    assert(self.frames@[k - 1] == old_frames[k - 1]);
                }
                assert forall|k: int| 0 <= k < self.frames.len() implies frame_ok(
                    #[trigger] self.frames@[k],
                    self.seen@,
                    cursor(self.frames@).take(k),
                ) && self.frames@[k].depth == self.depth - k by {
                    if k < m {
                        assert(cursor(self.frames@).take(k) =~= cur.take(k));
                        assert(self.frames@[k] == old_frames[k]);
                    } else {
                        assert(cursor(self.frames@).take(k) =~= cursor(rest));
                    }
                }
            }
        }
    }

    /// Takes the listing that `request` asked for: `None` where the directory could
    /// not be listed, which then stands as an empty directory. Then works on until
    /// the next listing is needed or the tree is done. The listing is recorded at the
    /// position it was asked for, which no listing held before.
    #[verifier::rlimit(60)]
    pub fn receive(&mut self, listing: Option<Vec<Report>>)
        requires
            old(self).wf(),
            old(self).result is None,
        ensures
            final(self).wf(),
            final(self).depth == old(self).depth,
            final(self).root == old(self).root,
            !old(self).seen@.contains_key(old(self).wanted()),
            final(self).seen@ == old(self).seen@.insert(
                old(self).wanted(),
                match listing {
                    Some(v) => Some(v@),
                    None => None,
                },
            ),
            final(self).drained == old(self).drained,
            old(self).walk().is_prefix_of(final(self).walk()),
    {
        let ghost w_old = self.walk();
        let ghost n_old = self.notices@;
        let ghost cur = cursor(self.frames@);
        let ghost m = self.frames.len() as int;
        let ghost old_frames = self.frames@;
        proof {
            assert(cur.is_prefix_of(cur));
        }
        let (dir, depth) = if self.frames.len() == 0 {
            (self.root, self.depth)
        } else {
            let f = &self.frames[self.frames.len() - 1];
            match &f.reports[f.done.len()] {
                Report::Directory { dir, .. } => (*dir, f.depth - 1),
                _ => (self.root, self.depth),
            }
        };
        let ghost entry: Option<Seq<Report>> = match &listing {
            Some(v) => Some(v@),
            None => None,
        };
        let ghost fs = self.seen@;
        let ghost fs2 = fs.insert(cur, entry);
        proof {
            assert forall|k: int| 0 <= k < m implies frame_ok(
                #[trigger] old_frames[k],
                fs2,
                cur.take(k),
            ) by {
                assert(frame_ok(old_frames[k], fs, cur.take(k)));
                assert(cur.take(k).len() != cur.len());
                assert forall|i: int| 0 <= i < old_frames[k].done.len() implies !(#[trigger] cur.take(k).push(i)).is_prefix_of(cur) by {
                    if cur.take(k).push(i).is_prefix_of(cur) {
                        assert(cur.take(k).push(i)[k] == cur[k]);
                    }
                }
                lemma_frame_insert(old_frames[k], fs, cur.take(k), cur, entry);
            }
            assert forall|k: int, i: int|
                0 <= k < old_frames.len() && 0 <= i < old_frames[k].done.len() implies !(#[trigger] cursor(
                old_frames,
            ).take(k).push(i)).is_prefix_of(cur) by {
                if cur.take(k).push(i).is_prefix_of(cur) {
                    assert(cur.take(k).push(i)[k] == cur[k]);
                }
            }
            lemma_open_notices_insert(old_frames, fs, cur, entry);
            if m > 0 {
                assert(old_frames[m - 1].depth > 1);
            }
        }
        self.seen = Ghost(fs2);
        assert(self.walk() == w_old);
        match listing {
            None => {
                self.notices.push(Notice::Unreadable { dir });
                let empty = Node::empty();
                proof {
                    if m > 0 {
                        assert forall|p: Seq<int>| #[trigger] fs2.contains_key(p) implies !ahead(p, advanced(cur)) by {
                            if p == cur {
                                lemma_not_ahead_advance(cur);
                            } else if ahead(p, advanced(cur)) {
                                lemma_ahead_advance(p, cur);
                            }
                        }
                    }
                }
                self.deliver(empty);
                assert(dir_notices(fs2, cur, dir, (self.depth - m) as nat) =~= seq![Notice::Unreadable { dir }]);
                assert(self.walk() =~= w_old.push(Notice::Unreadable { dir }));
                assert(self.notices@ =~= n_old.push(Notice::Unreadable { dir }));
                assert(self.notices@ =~= self.walk().skip(self.drained@ as int));
            },
            Some(reports) => {
                let frame = Frame { dir, depth, reports, done: Vec::new() };
                let ghost nf = frame;
                self.frames.push(frame);
                proof {
                    lemma_cursor_push(old_frames, nf);
                    assert(self.frames@ =~= old_frames.push(nf));
                    assert(cursor(self.frames@) == cur.push(0));
                    assert forall|k: int| 0 <= k < self.frames.len() implies frame_ok(
                        #[trigger] self.frames@[k],
                        self.seen@,
                        cursor(self.frames@).take(k),
                    ) && self.frames@[k].depth == self.depth - k by {
                        assert(cursor(self.frames@).take(k) =~= cur.take(k));
                        if k < m {
                            assert(self.frames@[k] == old_frames[k]);
                        }
                    }
                    assert forall|p: Seq<int>| #[trigger] fs2.contains_key(p) implies !ahead(p, cur.push(0)) by {
                        if p == cur {
                            lemma_not_ahead_push(cur);
                        } else if ahead(p, cur.push(0)) {
                            lemma_ahead_push(p, cur);
                        }
                    }
                    assert(self.frames@.drop_last() =~= old_frames);
                    assert(self.walk() =~= w_old);
                    assert(self.notices@ =~= self.walk().skip(self.drained@ as int));
                    assert forall|k: int| 0 < k < self.frames.len() implies (#[trigger] self.frames@[k]).dir
                        == self.frames@[k - 1].reports@[self.frames@[k - 1].done.len() as int]->Directory_dir by {
                        if k < m {
                            assert(old_frames[k].dir == old_frames[k - 1].reports@[old_frames[k - 1].done.len() as int]->Directory_dir);
                        }
                        assert(self.frames@[k - 1] == old_frames[k - 1]);
                    }
                }
            },
        }
        let ghost w_mid = self.walk();
        assert(w_old.is_prefix_of(w_mid)) by {
            assert(w_old =~= w_mid.subrange(0, w_old.len() as int));
        }
        self.settle();
        assert(w_old =~= self.walk().subrange(0, w_old.len() as int)) by {
            assert(w_mid =~= self.walk().subrange(0, w_mid.len() as int));
            assert(w_old =~= w_mid.subrange(0, w_old.len() as int));
        }
    }

    /// The finished tree, once `request` says the scan is over: what a scan of the
    /// listings received makes of the root, with every directory carrying the sum
    /// of its children's sizes.
    pub fn finish(self) -> (r: Option<Node>)
        requires
            self.inv(),
        ensures
            r == self.result,
            r matches Some(n) ==> n.wf() && scanned(n, self.seen@, Seq::empty(), self.depth as nat),
    {
        self.result
    }

    /// Hands out the diagnostics gathered so far and forgets them.
    pub fn take_notices(&mut self) -> (r: Vec<Notice>)
        requires
            old(self).wf(),
        ensures
            final(self).wf(),
            r@ == old(self).notices@,
            final(self).drained@ == old(self).walk().len(),
            final(self).notices@.len() == 0,
            final(self).depth == old(self).depth,
            final(self).root == old(self).root,
            final(self).frames == old(self).frames,
            final(self).result == old(self).result,
            final(self).seen == old(self).seen,
    {
        let mut out = Vec::new();
        std::mem::swap(&mut out, &mut self.notices);
        self.drained = Ghost(self.walk().len());
        assert(self.notices@ =~= self.walk().skip(self.drained@ as int));
        out
    }

    fn top_waits(&self) -> (r: bool)
        requires
            self.frames.len() > 0,
        ensures
            r == waits(self.frames@.last()),
    {
        let f = &self.frames[self.frames.len() - 1];
        f.done.len() < f.reports.len() && f.depth > 1 && matches!(f.reports[f.done.len()], Report::Directory { .. })
    }
}

} // verus!
