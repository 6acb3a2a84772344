//! OPML 2.0 documents and the extraction of their RSS feeds, grouped by the
//! folders that hold them.
use std::collections::HashMap;

use vstd::prelude::*;

use crate::errors::OpmlError;

verus! {

/// OPML head element containing metadata
#[derive(Clone, Debug, PartialEq)]
pub struct Head {
    pub title: Option<String>,
    pub date_created: Option<String>,
    pub date_modified: Option<String>,
    pub owner_name: Option<String>,
    pub owner_email: Option<String>,
    pub owner_id: Option<String>,
    pub docs: Option<String>,
    pub expansion_state: Option<String>,
    pub vert_scroll_state: Option<String>,
    pub window_top: Option<String>,
    pub window_left: Option<String>,
    pub window_bottom: Option<String>,
    pub window_right: Option<String>,
}

impl Default for Head {
    fn default() -> (res: Self)
        ensures
            res == (Head {
                title: None,
                date_created: None,
                date_modified: None,
                owner_name: None,
                owner_email: None,
                owner_id: None,
                docs: None,
                expansion_state: None,
                vert_scroll_state: None,
                window_top: None,
                window_left: None,
                window_bottom: None,
                window_right: None,
            }),
    {
        Head {
            title: None,
            date_created: None,
            date_modified: None,
            owner_name: None,
            owner_email: None,
            owner_id: None,
            docs: None,
            expansion_state: None,
            vert_scroll_state: None,
            window_top: None,
            window_left: None,
            window_bottom: None,
            window_right: None,
        }
    }
}

/// OPML body element containing outlines
#[derive(Clone, Debug, PartialEq)]
pub struct Body {
    pub outlines: Vec<Outline>,
}

impl Default for Body {
    fn default() -> (res: Self)
        ensures
            res.outlines@ == Seq::<Outline>::empty(),
    {
        Body { outlines: Vec::new() }
    }
}

/// OPML outline element - the core hierarchical structure.
/// Can represent folders, RSS feeds, or other content types.
#[derive(Debug, PartialEq)]
pub struct Outline {
    pub text: String,
    pub outlines: Option<Vec<Outline>>,
    pub type_: Option<String>,
    pub xml_url: Option<String>,
    pub description: Option<String>,
    pub html_url: Option<String>,
    pub title: Option<String>,
    pub version: Option<String>,
    pub language: Option<String>,
    /// Whether the outline is commented out ("true"/"false"). By convention,
    /// if an outline is commented, all subordinate outlines are also commented.
    pub is_comment: Option<String>,
    /// Whether a breakpoint is set on this outline ("true"/"false").
    /// Mainly used for outlines that edit scripts.
    pub is_breakpoint: Option<String>,
    /// Date-time when the outline node was created.
    pub created: Option<String>,
    /// Comma-separated slash-delimited category strings (RSS 2.0 category format).
    /// Example: "/Boston/Weather" or "/Harvard/Berkman,/Politics"
    pub category: Option<String>,
    /// Extra unknown attributes.
    pub extra: HashMap<String, String>,
}

impl Clone for Outline {
    fn clone(&self) -> (res: Self) {
        clone_outline(self)
    }
}

/// A copy of `o` and of every outline below it.
fn clone_outline(o: &Outline) -> (res: Outline)
    decreases o,
{
    let outlines = match &o.outlines {
        Some(v) => {
            let mut copies: Vec<Outline> = Vec::new();
            let mut i: usize = 0;
            while i < v.len()
                invariant
                    o.outlines == Some(*v),
                    i <= v@.len(),
                decreases v.len() - i,
            {
                proof {
                    let ov = o.outlines;
                    assert(decreases_to!(*o => ov));
                    assert(decreases_to!(ov => ov->0));
                    assert(decreases_to!(ov->0 => ov->0@));
                    assert(decreases_to!(ov->0@ => v@[i as int]));
                    assert(decreases_to!(*o => v@[i as int]));
                }
                copies.push(clone_outline(&v[i]));
                i = i + 1;
            }
            Some(copies)
        },
        None => None,
    };
    Outline {
        text: o.text.clone(),
        outlines,
        type_: o.type_.clone(),
        xml_url: o.xml_url.clone(),
        description: o.description.clone(),
        html_url: o.html_url.clone(),
        title: o.title.clone(),
        version: o.version.clone(),
        language: o.language.clone(),
        is_comment: o.is_comment.clone(),
        is_breakpoint: o.is_breakpoint.clone(),
        created: o.created.clone(),
        category: o.category.clone(),
        extra: o.extra.clone(),
    }
}

impl Default for Outline {
    fn default() -> (res: Self)
        ensures
            res.text@ == Seq::<char>::empty(),
            res.outlines is None,
            res.type_ is None,
            res.xml_url is None,
            res.description is None,
            res.html_url is None,
            res.title is None,
            res.version is None,
            res.language is None,
            res.is_comment is None,
            res.is_breakpoint is None,
            res.created is None,
            res.category is None,
            res.extra@ == Map::<String, String>::empty(),
    {
        Outline {
            text: String::new(),
            outlines: None,
            type_: None,
            xml_url: None,
            description: None,
            html_url: None,
            title: None,
            version: None,
            language: None,
            is_comment: None,
            is_breakpoint: None,
            created: None,
            category: None,
            extra: HashMap::new(),
        }
    }
}

/// Root OPML document structure
#[derive(Clone, Debug, PartialEq)]
pub struct Opml {
    pub version: String,
    pub head: Head,
    pub body: Body,
}

impl Default for Opml {
    fn default() -> (res: Self)
        ensures
            res.version@ == seq!['2', '.', '0'],
            res.head == (Head {
                title: None,
                date_created: None,
                date_modified: None,
                owner_name: None,
                owner_email: None,
                owner_id: None,
                docs: None,
                expansion_state: None,
                vert_scroll_state: None,
                window_top: None,
                window_left: None,
                window_bottom: None,
                window_right: None,
            }),
            res.body.outlines@ == Seq::<Outline>::empty(),
    {
        proof {
            reveal_strlit("2.0");
        }
        Opml { version: "2.0".to_owned(), head: Head::default(), body: Body::default() }
    }
}

/// Group of RSS feeds organized by folder
#[derive(Clone, Debug, PartialEq)]
pub struct GroupFeeds {
    /// Group name (empty string for top-level feeds)
    pub group: String,
    /// RSS feeds in this group
    pub feeds: Vec<OpmlFeed>,
}

/// RSS feed extracted from OPML outline
#[derive(Clone, Debug, PartialEq)]
pub struct OpmlFeed {
    pub text: Option<String>,
    pub title: Option<String>,
    pub xml_url: String,
    pub html_url: Option<String>,
}

// ---------------------------------------------------------------------------
// The model of feed extraction
// ---------------------------------------------------------------------------

pub open spec fn opt_view(o: Option<String>) -> Option<Seq<char>> {
    match o {
        Some(s) => Some(s@),
        None => None,
    }
}

pub struct OpmlFeedView {
    pub text: Option<Seq<char>>,
    pub title: Option<Seq<char>>,
    pub xml_url: Seq<char>,
    pub html_url: Option<Seq<char>>,
}

impl View for OpmlFeed {
    type V = OpmlFeedView;

    open spec fn view(&self) -> OpmlFeedView {
        OpmlFeedView {
            text: opt_view(self.text),
            title: opt_view(self.title),
            xml_url: self.xml_url@,
            html_url: opt_view(self.html_url),
        }
    }
}

pub struct GroupFeedsView {
    pub group: Seq<char>,
    pub feeds: Seq<OpmlFeedView>,
}

pub open spec fn feeds_view(fs: Seq<OpmlFeed>) -> Seq<OpmlFeedView> {
    fs.map_values(|f: OpmlFeed| f@)
}

impl View for GroupFeeds {
    type V = GroupFeedsView;

    open spec fn view(&self) -> GroupFeedsView {
        GroupFeedsView { group: self.group@, feeds: feeds_view(self.feeds@) }
    }
}

pub open spec fn groups_view(gs: Seq<GroupFeeds>) -> Seq<GroupFeedsView> {
    gs.map_values(|g: GroupFeeds| g@)
}

pub open spec fn folder_type() -> Seq<char> {
    seq!['f', 'o', 'l', 'd', 'e', 'r']
}

pub open spec fn rss_type() -> Seq<char> {
    seq!['r', 's', 's']
}

pub open spec fn has_type(o: Outline, t: Seq<char>) -> bool {
    o.type_ matches Some(k) && k@ == t
}

pub open spec fn is_folder(o: Outline) -> bool {
    has_type(o, folder_type())
}

pub open spec fn is_rss(o: Outline) -> bool {
    has_type(o, rss_type())
}

/// An outline of type "rss" without an `xmlUrl`.
pub open spec fn lacks_feed_url(o: Outline) -> bool {
    is_rss(o) && o.xml_url is None
}

/// The feed an outline stands for: any outline with an `xmlUrl` that is not a
/// folder.
pub open spec fn feed_of(o: Outline) -> Option<OpmlFeedView> {
    if !is_folder(o) && o.xml_url is Some {
        Some(
            OpmlFeedView {
                text: Some(o.text@),
                title: opt_view(o.title),
                xml_url: o.xml_url->0@,
                html_url: opt_view(o.html_url),
            },
        )
    } else {
        None
    }
}

/// The path of a folder named `name` inside the folder at `parent`.
pub open spec fn join_path(parent: Seq<char>, name: Seq<char>) -> Seq<char> {
    if parent.len() == 0 {
        name
    } else {
        parent + seq!['/'] + name
    }
}

/// The feeds that stand directly in `os`, in order.
pub open spec fn level_feeds(os: Seq<Outline>) -> Seq<OpmlFeedView>
    decreases os.len(),
{
    if os.len() == 0 {
        Seq::empty()
    } else {
        level_feeds(os.subrange(0, os.len() - 1)) + match feed_of(os[os.len() - 1]) {
            Some(f) => seq![f],
            None => Seq::empty(),
        }
    }
}

/// Whether an outline of `os` itself lacks the URL its type needs.
pub open spec fn level_lacks_url(os: Seq<Outline>) -> bool
    decreases os.len(),
{
    if os.len() == 0 {
        false
    } else {
        level_lacks_url(os.subrange(0, os.len() - 1)) || lacks_feed_url(os[os.len() - 1])
    }
}

/// The group of the feeds that stand directly in `os`, if there are any.
pub open spec fn local_group(os: Seq<Outline>, parent: Seq<char>) -> Seq<GroupFeedsView> {
    if level_feeds(os).len() > 0 {
        seq![GroupFeedsView { group: parent, feeds: level_feeds(os) }]
    } else {
        Seq::empty()
    }
}

/// The groups of the feeds below `os` at the path `parent`: first those of
/// the folders without a name (which are transparent, their content standing
/// at `parent`), then the feeds of `os` itself, then those of the named
/// folders, each at the path extended by its name; all in document order.
pub open spec fn collect_groups(os: Seq<Outline>, parent: Seq<char>) -> Seq<GroupFeedsView>
    decreases os, 1int,
{
    folder_groups(os, parent, true) + local_group(os, parent) + folder_groups(os, parent, false)
}

/// The groups below the folders of `os` that are transparent (or, for
/// `transparent == false`, named), in order.
pub open spec fn folder_groups(os: Seq<Outline>, parent: Seq<char>, transparent: bool) -> Seq<
    GroupFeedsView,
>
    decreases os, 0int,
{
    if os.len() == 0 {
        Seq::empty()
    } else {
        let o = os[os.len() - 1];
        folder_groups(os.subrange(0, os.len() - 1), parent, transparent) + match o.outlines {
            Some(v) => {
                if is_folder(o) && (o.text@.len() == 0) == transparent {
                    collect_groups(
                        v@,
                        if transparent {
                            parent
                        } else {
                            join_path(parent, o.text@)
                        },
                    )
                } else {
                    Seq::empty()
                }
            },
            None => Seq::empty(),
        }
    }
}

/// Whether the tree below `os` holds an RSS outline without an `xmlUrl`
/// (in `os` itself or inside its folders, at any depth).
pub open spec fn has_unusable_feed(os: Seq<Outline>) -> bool
    decreases os, 1int,
{
    level_lacks_url(os) || folder_has_unusable_feed(os, true) || folder_has_unusable_feed(os, false)
}

pub open spec fn folder_has_unusable_feed(os: Seq<Outline>, transparent: bool) -> bool
    decreases os, 0int,
{
    if os.len() == 0 {
        false
    } else {
        let o = os[os.len() - 1];
        folder_has_unusable_feed(os.subrange(0, os.len() - 1), transparent) || match o.outlines {
            Some(v) => is_folder(o) && (o.text@.len() == 0) == transparent && has_unusable_feed(
                v@,
            ),
            None => false,
        }
    }
}

pub open spec fn missing_url_message() -> Seq<char> {
    "RSS outline missing xmlUrl"@
}

pub open spec fn is_missing_url_error(e: OpmlError) -> bool {
    e matches OpmlError::BadFeed(m) && m@ == missing_url_message()
}

// ---------------------------------------------------------------------------
// Facts about the model
// ---------------------------------------------------------------------------

/// The groups that a folder outline `o` contributes at `parent`.
pub open spec fn groups_of_folder(o: Outline, parent: Seq<char>, transparent: bool) -> Seq<
    GroupFeedsView,
> {
    match o.outlines {
        Some(v) => {
            if is_folder(o) && (o.text@.len() == 0) == transparent {
                collect_groups(
                    v@,
                    if transparent {
                        parent
                    } else {
                        join_path(parent, o.text@)
                    },
                )
            } else {
                Seq::empty()
            }
        },
        None => Seq::empty(),
    }
}

pub open spec fn folder_is_unusable(o: Outline, transparent: bool) -> bool {
    match o.outlines {
        Some(v) => is_folder(o) && (o.text@.len() == 0) == transparent && has_unusable_feed(v@),
        None => false,
    }
}

proof fn lemma_level_step(os: Seq<Outline>, i: int, parent: Seq<char>)
    requires
        0 <= i < os.len(),
    ensures
        level_feeds(os.take(i + 1)) == level_feeds(os.take(i)) + match feed_of(os[i]) {
            Some(f) => seq![f],
            None => Seq::<OpmlFeedView>::empty(),
        },
        level_lacks_url(os.take(i + 1)) == (level_lacks_url(os.take(i)) || lacks_feed_url(os[i])),
        folder_groups(os.take(i + 1), parent, true) == folder_groups(os.take(i), parent, true)
            + groups_of_folder(os[i], parent, true),
        folder_groups(os.take(i + 1), parent, false) == folder_groups(os.take(i), parent, false)
            + groups_of_folder(os[i], parent, false),
        folder_has_unusable_feed(os.take(i + 1), true) == (folder_has_unusable_feed(
            os.take(i),
            true,
        ) || folder_is_unusable(os[i], true)),
        folder_has_unusable_feed(os.take(i + 1), false) == (folder_has_unusable_feed(
            os.take(i),
            false,
        ) || folder_is_unusable(os[i], false)),
{
    let t = os.take(i + 1);
    assert(t.subrange(0, t.len() - 1) == os.take(i));
    assert(t[t.len() - 1] == os[i]);
}

proof fn lemma_level_prefix(os: Seq<Outline>, k: int)
    requires
        0 <= k <= os.len(),
    ensures
        level_lacks_url(os.take(k)) ==> level_lacks_url(os),
        folder_has_unusable_feed(os.take(k), true) ==> folder_has_unusable_feed(os, true),
        folder_has_unusable_feed(os.take(k), false) ==> folder_has_unusable_feed(os, false),
    decreases os.len() - k,
{
    if k == os.len() {
        assert(os.take(k) == os);
    } else {
        lemma_level_prefix(os, k + 1);
        lemma_level_step(os, k, Seq::empty());
    }
}

proof fn lemma_literals()
    ensures
        "folder"@ == folder_type(),
        "rss"@ == rss_type(),
        "/"@ == seq!['/'],
        ""@ == Seq::<char>::empty(),
{
    reveal_strlit("folder");
    reveal_strlit("rss");
    reveal_strlit("/");
    reveal_strlit("");
    assert("folder"@ == folder_type());
    assert("rss"@ == rss_type());
    assert("/"@ == seq!['/']);
    assert(""@ == Seq::<char>::empty());
}

proof fn lemma_take_all(os: Seq<Outline>)
    ensures
        os.take(os.len() as int) == os,
{
}

/// The feed of an outline: its text, title, `xmlUrl` and `htmlUrl`.
pub open spec fn outline_feed(o: Outline) -> OpmlFeedView {
    OpmlFeedView {
        text: Some(o.text@),
        title: opt_view(o.title),
        xml_url: o.xml_url->0@,
        html_url: opt_view(o.html_url),
    }
}

/// Whether `f` is the feed of an outline of `os` that is not a folder and has
/// an `xmlUrl`: its text, title, `xmlUrl` and `htmlUrl`.
pub open spec fn is_feed_of_some_outline(os: Seq<Outline>, f: OpmlFeedView) -> bool {
    exists|k: int|
        0 <= k < os.len() && !is_folder(#[trigger] os[k]) && os[k].xml_url is Some && f == (
        OpmlFeedView {
            text: Some(os[k].text@),
            title: opt_view(os[k].title),
            xml_url: os[k].xml_url->0@,
            html_url: opt_view(os[k].html_url),
        })
}

/// Every outline that is not a folder and has an `xmlUrl` stands for a feed
/// that carries its text, title, `xmlUrl` and `htmlUrl`, whatever its type;
/// no other outline stands for a feed.
pub proof fn law_feed_carries_outline_attributes(o: Outline)
    ensures
        !is_folder(o) && o.xml_url is Some ==> feed_of(o) == Some(
            (OpmlFeedView {
                text: Some(o.text@),
                title: opt_view(o.title),
                xml_url: o.xml_url->0@,
                html_url: opt_view(o.html_url),
            }),
        ),
        is_folder(o) || o.xml_url is None ==> feed_of(o) is None,
{
}

/// The feeds of a level of outlines are those of its outlines that are not
/// folders and have an `xmlUrl`, each with the outline's attributes, in
/// document order.
pub proof fn law_level_feeds_carry_outline_attributes(os: Seq<Outline>)
    ensures
        forall|j: int|
            0 <= j < level_feeds(os).len() ==> is_feed_of_some_outline(
                os,
                #[trigger] level_feeds(os)[j],
            ),
        forall|k: int|
            0 <= k < os.len() && !is_folder(#[trigger] os[k]) && os[k].xml_url is Some
                ==> level_feeds(os).contains(
                (OpmlFeedView {
                    text: Some(os[k].text@),
                    title: opt_view(os[k].title),
                    xml_url: os[k].xml_url->0@,
                    html_url: opt_view(os[k].html_url),
                }),
            ),
    decreases os.len(),
{
    if os.len() > 0 {
        let p = os.subrange(0, os.len() - 1);
        let o = os[os.len() - 1];
        law_level_feeds_carry_outline_attributes(p);
        let lp = level_feeds(p);
        let extra = match feed_of(o) {
            Some(f) => seq![f],
            None => Seq::<OpmlFeedView>::empty(),
        };
        assert(level_feeds(os) == lp + extra);
        assert forall|j: int| 0 <= j < level_feeds(os).len() implies is_feed_of_some_outline(
            os,
            #[trigger] level_feeds(os)[j],
        ) by {
            if j < lp.len() {
                assert(level_feeds(os)[j] == lp[j]);
                assert(is_feed_of_some_outline(p, lp[j]));
                let k = choose|k: int|
                    0 <= k < p.len() && !is_folder(#[trigger] p[k]) && p[k].xml_url is Some
                        && lp[j] == outline_feed(p[k]);
                assert(os[k] == p[k]);
            } else {
                assert(level_feeds(os)[j] == extra[0]);
                assert(os[os.len() - 1] == o);
                let k = os.len() - 1;
                assert(!is_folder(os[k]) && os[k].xml_url is Some && level_feeds(os)[j]
                    == outline_feed(os[k]));
            }
        }
        assert forall|k: int|
            0 <= k < os.len() && !is_folder(#[trigger] os[k]) && os[k].xml_url is Some implies level_feeds(
            os,
        ).contains(outline_feed(os[k])) by {
            if k < p.len() {
                assert(os[k] == p[k]);
                assert(lp.contains(outline_feed(p[k])));
                let m = choose|m: int| 0 <= m < lp.len() && lp[m] == outline_feed(p[k]);
                assert(level_feeds(os)[m] == lp[m]);
            } else {
                assert(level_feeds(os)[lp.len() as int] == outline_feed(o));
            }
        }
    }
}

/// A feed extracted from `o`, whose `xmlUrl` is `url`.
fn feed_from_outline(o: &Outline, url: &String) -> (res: OpmlFeed)
    requires
        o.xml_url == Some(*url),
    ensures
        !is_folder(*o) ==> feed_of(*o) == Some(res@),
        res@ == (OpmlFeedView {
            text: Some(o.text@),
            title: opt_view(o.title),
            xml_url: url@,
            html_url: opt_view(o.html_url),
        }),
{
    OpmlFeed {
        text: Some(o.text.clone()),
        title: clone_text(&o.title),
        xml_url: url.clone(),
        html_url: clone_text(&o.html_url),
    }
}

fn clone_text(o: &Option<String>) -> (res: Option<String>)
    ensures
        opt_view(res) == opt_view(*o),
{
    match o {
        Some(s) => Some(s.clone()),
        None => None,
    }
}

/// Whether the outline type `t` is `expected`.
fn type_is(t: &Option<String>, expected: &str) -> (res: bool)
    ensures
        res == (t matches Some(k) && k@ == expected@),
{
    match t {
        Some(k) => *k == expected.to_owned(),
        None => false,
    }
}

proof fn lemma_prefix_trans(a: Seq<GroupFeedsView>, b: Seq<GroupFeedsView>, c: Seq<GroupFeedsView>)
    requires
        a.is_prefix_of(b),
        b.is_prefix_of(c),
    ensures
        a.is_prefix_of(c),
{
    assert(c.take(a.len() as int) =~= b.take(a.len() as int));
}

proof fn lemma_prefix_concat(a: Seq<GroupFeedsView>, b: Seq<GroupFeedsView>)
    ensures
        a.is_prefix_of(a + b),
{
    assert((a + b).take(a.len() as int) =~= a);
}

proof fn lemma_groups_view_push(gs: Seq<GroupFeeds>, g: GroupFeeds)
    ensures
        groups_view(gs.push(g)) == groups_view(gs).push(g@),
{
    assert(groups_view(gs.push(g)) =~= groups_view(gs).push(g@));
}

proof fn lemma_feeds_view_push(fs: Seq<OpmlFeed>, f: OpmlFeed)
    ensures
        feeds_view(fs.push(f)) == feeds_view(fs).push(f@),
{
    assert(feeds_view(fs.push(f)) =~= feeds_view(fs).push(f@));
}

pub open spec fn all_groups_have_feeds(gs: Seq<GroupFeedsView>) -> bool {
    forall|j: int| 0 <= j < gs.len() ==> #[trigger] gs[j].feeds.len() > 0
}

proof fn lemma_concat_groups_have_feeds(a: Seq<GroupFeedsView>, b: Seq<GroupFeedsView>)
    requires
        all_groups_have_feeds(a),
        all_groups_have_feeds(b),
    ensures
        all_groups_have_feeds(a + b),
{
    assert forall|j: int| 0 <= j < (a + b).len() implies #[trigger] (a + b)[j].feeds.len() > 0 by {
        if j < a.len() {
            assert((a + b)[j] == a[j]);
        } else {
            assert((a + b)[j] == b[j - a.len()]);
        }
    }
}

/// Every group that feed extraction yields holds at least one feed: folders
/// without feeds below them yield no group.
pub proof fn law_every_group_has_feeds(os: Seq<Outline>, parent: Seq<char>)
    ensures
        all_groups_have_feeds(collect_groups(os, parent)),
    decreases os, 1int,
{
    lemma_folder_groups_have_feeds(os, parent, true);
    lemma_folder_groups_have_feeds(os, parent, false);
    lemma_concat_groups_have_feeds(folder_groups(os, parent, true), local_group(os, parent));
    lemma_concat_groups_have_feeds(
        folder_groups(os, parent, true) + local_group(os, parent),
        folder_groups(os, parent, false),
    );
}

proof fn lemma_folder_groups_have_feeds(os: Seq<Outline>, parent: Seq<char>, transparent: bool)
    ensures
        all_groups_have_feeds(folder_groups(os, parent, transparent)),
    decreases os, 0int,
{
    if os.len() > 0 {
        let o = os[os.len() - 1];
        let prefix = os.subrange(0, os.len() - 1);
        lemma_folder_groups_have_feeds(prefix, parent, transparent);
        match o.outlines {
            Some(v) => {
                if is_folder(o) && (o.text@.len() == 0) == transparent {
                    let p = if transparent {
                        parent
                    } else {
                        join_path(parent, o.text@)
                    };
                    assert(decreases_to!(os => o));
                    law_every_group_has_feeds(v@, p);
                    lemma_concat_groups_have_feeds(
                        folder_groups(prefix, parent, transparent),
                        collect_groups(v@, p),
                    );
                } else {
                    assert(folder_groups(os, parent, transparent) == folder_groups(
                        prefix,
                        parent,
                        transparent,
                    ) + Seq::<GroupFeedsView>::empty());
                }
            },
            None => {
                assert(folder_groups(os, parent, transparent) == folder_groups(
                    prefix,
                    parent,
                    transparent,
                ) + Seq::<GroupFeedsView>::empty());
            },
        }
    }
}

/// The number of feed outlines in the tree below `os` that feed extraction
/// visits: those of `os` itself and, at any depth, those inside folders.
pub open spec fn feed_count(os: Seq<Outline>) -> nat
    decreases os,
{
    if os.len() == 0 {
        0
    } else {
        let o = os[os.len() - 1];
        feed_count(os.subrange(0, os.len() - 1)) + (if feed_of(o) is Some {
            1nat
        } else {
            0nat
        }) + match o.outlines {
            Some(v) => if is_folder(o) {
                feed_count(v@)
            } else {
                0nat
            },
            None => 0nat,
        }
    }
}

/// The number of feeds the groups `gs` hold in all.
pub open spec fn feeds_total(gs: Seq<GroupFeedsView>) -> nat
    decreases gs.len(),
{
    if gs.len() == 0 {
        0
    } else {
        feeds_total(gs.drop_last()) + gs.last().feeds.len()
    }
}

proof fn lemma_feeds_total_concat(a: Seq<GroupFeedsView>, b: Seq<GroupFeedsView>)
    ensures
        feeds_total(a + b) == feeds_total(a) + feeds_total(b),
    decreases b.len(),
{
    if b.len() == 0 {
        assert(a + b == a);
    } else {
        lemma_feeds_total_concat(a, b.drop_last());
        assert((a + b).drop_last() == a + b.drop_last());
        assert((a + b).last() == b.last());
    }
}

/// Feed extraction loses and duplicates no feed: the groups hold, in all, as
/// many feeds as there are feed outlines that it visits.
pub proof fn law_no_feed_is_lost(os: Seq<Outline>, parent: Seq<char>)
    ensures
        feeds_total(collect_groups(os, parent)) == feed_count(os),
    decreases os, 1int,
{
    lemma_folder_feed_totals(os, parent);
    let t = folder_groups(os, parent, true);
    let l = local_group(os, parent);
    let n = folder_groups(os, parent, false);
    lemma_feeds_total_concat(t, l);
    lemma_feeds_total_concat(t + l, n);
    if level_feeds(os).len() > 0 {
        assert(feeds_total(l) == feeds_total(l.drop_last()) + l.last().feeds.len());
        assert(l.drop_last().len() == 0);
    }
}

proof fn lemma_folder_feed_totals(os: Seq<Outline>, parent: Seq<char>)
    ensures
        feeds_total(folder_groups(os, parent, true)) + level_feeds(os).len() + feeds_total(
            folder_groups(os, parent, false),
        ) == feed_count(os),
    decreases os, 0int,
{
    if os.len() > 0 {
        let o = os[os.len() - 1];
        let prefix = os.subrange(0, os.len() - 1);
        lemma_folder_feed_totals(prefix, parent);
        let tt = groups_of_folder(o, parent, true);
        let nn = groups_of_folder(o, parent, false);
        assert(folder_groups(os, parent, true) == folder_groups(prefix, parent, true) + tt);
        assert(folder_groups(os, parent, false) == folder_groups(prefix, parent, false) + nn);
        lemma_feeds_total_concat(folder_groups(prefix, parent, true), tt);
        lemma_feeds_total_concat(folder_groups(prefix, parent, false), nn);
        match o.outlines {
            Some(v) => {
                assert(decreases_to!(os => o));
                if is_folder(o) {
                    if o.text@.len() == 0 {
                        law_no_feed_is_lost(v@, parent);
                        assert(feeds_total(nn) == 0);
                    } else {
                        law_no_feed_is_lost(v@, join_path(parent, o.text@));
                        assert(feeds_total(tt) == 0);
                    }
                } else {
                    assert(feeds_total(tt) == 0);
                    assert(feeds_total(nn) == 0);
                }
            },
            None => {
                assert(feeds_total(tt) == 0);
                assert(feeds_total(nn) == 0);
            },
        }
    }
}

/// The path `group` takes when the whole tree is placed at `parent`: the
/// top level becomes `parent` itself, a folder path is joined below it.
pub open spec fn place_under(parent: Seq<char>, group: Seq<char>) -> Seq<char> {
    if group.len() == 0 {
        parent
    } else {
        join_path(parent, group)
    }
}

/// The groups `gs` with every path placed under `parent`.
pub open spec fn relabel(parent: Seq<char>, gs: Seq<GroupFeedsView>) -> Seq<GroupFeedsView> {
    gs.map_values(
        |g: GroupFeedsView| GroupFeedsView { group: place_under(parent, g.group), feeds: g.feeds },
    )
}

proof fn lemma_relabel_concat(p: Seq<char>, a: Seq<GroupFeedsView>, b: Seq<GroupFeedsView>)
    ensures
        relabel(p, a + b) == relabel(p, a) + relabel(p, b),
{
    assert(relabel(p, a + b) =~= relabel(p, a) + relabel(p, b));
}

proof fn lemma_place_under_join(p: Seq<char>, q: Seq<char>, n: Seq<char>)
    requires
        n.len() > 0,
    ensures
        place_under(p, join_path(q, n)) == join_path(place_under(p, q), n),
{
    if q.len() > 0 && p.len() > 0 {
        assert(p + seq!['/'] + (q + seq!['/'] + n) =~= p + seq!['/'] + q + seq!['/'] + n);
    }
}

proof fn lemma_folder_groups_relabel(
    os: Seq<Outline>,
    p: Seq<char>,
    q: Seq<char>,
    transparent: bool,
)
    ensures
        folder_groups(os, place_under(p, q), transparent) == relabel(
            p,
            folder_groups(os, q, transparent),
        ),
    decreases os, 0int,
{
    if os.len() == 0 {
        assert(relabel(p, Seq::<GroupFeedsView>::empty()) =~= Seq::<GroupFeedsView>::empty());
    } else {
        let o = os[os.len() - 1];
        let prefix = os.subrange(0, os.len() - 1);
        lemma_folder_groups_relabel(prefix, p, q, transparent);
        let tail = groups_of_folder(o, q, transparent);
        assert(folder_groups(os, q, transparent) == folder_groups(prefix, q, transparent) + tail);
        lemma_relabel_concat(p, folder_groups(prefix, q, transparent), tail);
        match o.outlines {
            Some(v) => {
                if is_folder(o) && (o.text@.len() == 0) == transparent {
                    assert(decreases_to!(os => o));
                    if transparent {
                        law_group_paths_extend_parent(v@, p, q);
                    } else {
                        lemma_place_under_join(p, q, o.text@);
                        law_group_paths_extend_parent(v@, p, join_path(q, o.text@));
                    }
                } else {
                    assert(relabel(p, Seq::<GroupFeedsView>::empty()) =~= Seq::<
                        GroupFeedsView,
                    >::empty());
                }
            },
            None => {
                assert(relabel(p, Seq::<GroupFeedsView>::empty()) =~= Seq::<
                    GroupFeedsView,
                >::empty());
            },
        }
    }
}

/// Feed paths follow the parent path: extracting the groups of a tree placed
/// at `place_under(p, q)` gives the groups of the same tree placed at `q`,
/// with every path placed under `p`.
pub proof fn law_group_paths_extend_parent(os: Seq<Outline>, p: Seq<char>, q: Seq<char>)
    ensures
        collect_groups(os, place_under(p, q)) == relabel(p, collect_groups(os, q)),
    decreases os, 1int,
{
    lemma_folder_groups_relabel(os, p, q, true);
    lemma_folder_groups_relabel(os, p, q, false);
    let t = folder_groups(os, q, true);
    let l = local_group(os, q);
    let n = folder_groups(os, q, false);
    lemma_relabel_concat(p, t, l);
    lemma_relabel_concat(p, t + l, n);
    assert(relabel(p, l) =~= local_group(os, place_under(p, q)));
}

/// Extracting the groups of a tree at the path `parent` gives its groups at
/// the top level with every path placed under `parent`: the top-level group
/// becomes `parent`, and a folder path `f` becomes `parent/f`. This is what
/// the recursive collector of `get_group_feeds` appends, by its contract.
pub proof fn law_group_paths_under_parent(os: Seq<Outline>, parent: Seq<char>)
    ensures
        collect_groups(os, parent) == relabel(parent, collect_groups(os, Seq::empty())),
{
    law_group_paths_extend_parent(os, parent, Seq::empty());
    assert(place_under(parent, Seq::empty()) == parent);
}

impl Opml {
    /// Extract RSS feeds grouped by folders.
    /// Supports unlimited nesting depth using recursive traversal.
    pub fn get_group_feeds(&self) -> (res: Result<Vec<GroupFeeds>, OpmlError>)
        ensures
            match res {
                Ok(groups) => !has_unusable_feed(self.body.outlines@) && groups_view(groups@)
                    == collect_groups(self.body.outlines@, Seq::empty()),
                Err(e) => has_unusable_feed(self.body.outlines@) && is_missing_url_error(e),
            },
    {
        let mut group_feeds: Vec<GroupFeeds> = Vec::new();
        proof {
            lemma_literals();
            assert(groups_view(group_feeds@) == Seq::<GroupFeedsView>::empty());
        }
        match self.collect_feeds_recursive(self.body.outlines.as_slice(), "", &mut group_feeds) {
            Ok(()) => {},
            Err(e) => {
                return Err(e);
            },
        }
        assert(groups_view(group_feeds@) == Seq::<GroupFeedsView>::empty() + collect_groups(
            self.body.outlines@,
            ""@,
        ));
        assert(groups_view(group_feeds@) == collect_groups(self.body.outlines@, Seq::empty()));
        Ok(group_feeds)
    }

    /// Recursively collect feeds from outline tree
    fn collect_feeds_recursive(
        &self,
        outlines: &[Outline],
        parent_path: &str,
        group_feeds: &mut Vec<GroupFeeds>,
    ) -> (res: Result<(), OpmlError>)
        ensures
            match res {
                Ok(()) => !has_unusable_feed(outlines@) && groups_view(final(group_feeds)@)
                    == groups_view(old(group_feeds)@) + collect_groups(outlines@, parent_path@),
                Err(e) => has_unusable_feed(outlines@) && is_missing_url_error(e),
            },
            groups_view(old(group_feeds)@).is_prefix_of(groups_view(final(group_feeds)@)),
        decreases outlines@,
    {
        let ghost os = outlines@;
        let ghost parent = parent_path@;
        let ghost start = groups_view(group_feeds@);
        let mut current_feeds: Vec<OpmlFeed> = Vec::new();
        let len = outlines.len();
        proof {
            assert(os.take(0) == Seq::<Outline>::empty());
            assert(feeds_view(current_feeds@) == Seq::<OpmlFeedView>::empty());
        }
        // First pass: the feeds of this level, and the transparent folders,
        // whose groups come first.
        let mut i: usize = 0;
        while i < len
            invariant
                os == outlines@,
                len == os.len(),
                parent == parent_path@,
                start == groups_view(old(group_feeds)@),
                i <= len,
                groups_view(group_feeds@) == start + folder_groups(os.take(i as int), parent, true),
                feeds_view(current_feeds@) == level_feeds(os.take(i as int)),
                !level_lacks_url(os.take(i as int)),
                !folder_has_unusable_feed(os.take(i as int), true),
            decreases len - i,
        {
            let outline = &outlines[i];
            proof {
                lemma_literals();
                lemma_level_step(os, i as int, parent);
            }
            if type_is(&outline.type_, "folder") {
                if outline.text.as_str().is_empty() {
                    // Empty-text folder: process children at the same path level
                    // to avoid producing double slashes like "Parent//Child"
                    if let Some(child_outlines) = &outline.outlines {
                        assert(is_folder(*outline));
                        assert(outline.text@.len() == 0);
                        assert(outline.outlines == Some(*child_outlines));
                        let ghost before = groups_view(group_feeds@);
                        let r = self.collect_feeds_recursive(
                            child_outlines.as_slice(),
                            parent_path,
                            group_feeds,
                        );
                        match r {
                            Ok(()) => {
                                assert(groups_view(group_feeds@) == before + collect_groups(
                                    child_outlines@,
                                    parent,
                                ));
                                assert(groups_of_folder(*outline, parent, true) == collect_groups(
                                    child_outlines@,
                                    parent,
                                ));
                                assert(groups_view(group_feeds@) == start + folder_groups(
                                    os.take(i + 1),
                                    parent,
                                    true,
                                ));
                            },
                            Err(e) => {
                                proof {
                                    lemma_level_prefix(os, i + 1);
                                    assert(folder_is_unusable(*outline, true));
                                    lemma_prefix_concat(start, folder_groups(os.take(i as int), parent, true));
                                    lemma_prefix_trans(start, before, groups_view(group_feeds@));
                                }
                                return Err(e);
                            },
                        }
                    }
                }
            } else if type_is(&outline.type_, "rss") {
                match &outline.xml_url {
                    Some(xml_url) => {
                        let feed = feed_from_outline(outline, xml_url);
                        proof {
                            lemma_feeds_view_push(current_feeds@, feed);
                        }
                        current_feeds.push(feed);
                    },
                    None => {
                        proof {
                            assert(is_rss(*outline));
                            assert(lacks_feed_url(*outline));
                            lemma_level_prefix(os, i + 1);
                            lemma_prefix_concat(start, folder_groups(os.take(i as int), parent, true));
                        }
                        return Err(OpmlError::BadFeed("RSS outline missing xmlUrl".to_owned()));
                    },
                }
            } else {
                // Outlines without an explicit type that have an xmlUrl are
                // implicit feeds.
                if let Some(xml_url) = &outline.xml_url {
                    let feed = feed_from_outline(outline, xml_url);
                    proof {
                        lemma_feeds_view_push(current_feeds@, feed);
                    }
                    current_feeds.push(feed);
                }
            }
            i = i + 1;
        }
        proof {
            lemma_take_all(os);
        }
        // The feeds at this level come before the named folders.
        if current_feeds.len() > 0 {
            let g = GroupFeeds { group: parent_path.to_owned(), feeds: current_feeds };
            proof {
                lemma_groups_view_push(group_feeds@, g);
            }
            group_feeds.push(g);
        }
        assert(groups_view(group_feeds@) == start + folder_groups(os, parent, true) + local_group(
            os,
            parent,
        ));
        // Second pass: the named folders, in order.
        let ghost base = groups_view(group_feeds@);
        let mut i: usize = 0;
        while i < len
            invariant
                os == outlines@,
                len == os.len(),
                parent == parent_path@,
                start == groups_view(old(group_feeds)@),
                i <= len,
                base == start + folder_groups(os, parent, true) + local_group(os, parent),
                groups_view(group_feeds@) == base + folder_groups(os.take(i as int), parent, false),
                !level_lacks_url(os),
                !folder_has_unusable_feed(os, true),
                !folder_has_unusable_feed(os.take(i as int), false),
            decreases len - i,
        {
            let outline = &outlines[i];
            proof {
                lemma_literals();
                lemma_level_step(os, i as int, parent);
            }
            if type_is(&outline.type_, "folder") && !outline.text.as_str().is_empty() {
                if let Some(child_outlines) = &outline.outlines {
                    let current_path = if parent_path.is_empty() {
                        outline.text.clone()
                    } else {
                        let mut p = parent_path.to_owned();
                        p.append("/");
                        p.append(outline.text.as_str());
                        p
                    };
                    assert(current_path@ == join_path(parent, outline.text@));
                    assert(is_folder(*outline));
                    assert(outline.text@.len() != 0);
                    assert(outline.outlines == Some(*child_outlines));
                    let ghost before = groups_view(group_feeds@);
                    let r = self.collect_feeds_recursive(
                        child_outlines.as_slice(),
                        current_path.as_str(),
                        group_feeds,
                    );
                    match r {
                        Ok(()) => {
                            assert(groups_of_folder(*outline, parent, false) == collect_groups(
                                child_outlines@,
                                current_path@,
                            ));
                            assert(groups_view(group_feeds@) == base + folder_groups(
                                os.take(i + 1),
                                parent,
                                false,
                            ));
                        },
                        Err(e) => {
                            proof {
                                lemma_level_prefix(os, i + 1);
                                assert(folder_is_unusable(*outline, false));
                                lemma_prefix_concat(
                                    start,
                                    folder_groups(os, parent, true) + local_group(os, parent)
                                        + folder_groups(os.take(i as int), parent, false),
                                );
                                assert(before == start + (folder_groups(os, parent, true)
                                    + local_group(os, parent) + folder_groups(
                                    os.take(i as int),
                                    parent,
                                    false,
                                )));
                                lemma_prefix_trans(start, before, groups_view(group_feeds@));
                            }
                            return Err(e);
                        },
                    }
                }
            }
            i = i + 1;
        }
        proof {
            lemma_take_all(os);
            lemma_prefix_concat(start, collect_groups(os, parent));
        }
        Ok(())
    }
}

} // verus!
