//! Search over the cached metadata.
//!
//! The consumer and topic search endpoints filter cache entries by name,
//! either by substring — only when the search string has at least three
//! characters — or by a regular expression when the request asks for one.
//! Substring search is verified here; regular expressions come from an
//! outside engine behind a single trusted boundary.

use vstd::prelude::*;
use vstd::utf8::encode_utf8;
use vstd::string::StringSliceAdditionalSpecFns;
use vstd::slice::slice_subrange;
use crate::wire::bytes_eq;
use crate::types::str_eq;
use crate::metadata::{ClusterId, TopicName, Group, Partition};
use crate::types::Wire;

verus! {

// ---------------------------------------------------------------------------
// substring search
// ---------------------------------------------------------------------------

/// `n` occurs contiguously in `h`.
pub open spec fn bytes_contain(h: Seq<u8>, n: Seq<u8>) -> bool {
    exists|k: int| 0 <= k <= h.len() - n.len() && #[trigger] h.subrange(k, k + n.len()) == n
}

/// Whether `needle` occurs in `hay`.  Strings contain each other exactly
/// when their UTF-8 encodings do, so the contract speaks of bytes.
pub fn str_contains(hay: &str, needle: &str) -> (r: bool)
    ensures
        r == bytes_contain(encode_utf8(hay@), encode_utf8(needle@)),
{
    let h = hay.as_bytes();
    let n = needle.as_bytes();
    let hl = h.len();
    let nl = n.len();
    if nl > hl {
        return false;
    }
    let last = hl - nl;
    let mut k: usize = 0;
    loop
        invariant
            nl <= hl,
            hl == h@.len(),
            nl == n@.len(),
            h@ == encode_utf8(hay@),
            n@ == encode_utf8(needle@),
            last == hl - nl,
            k <= last,
            forall|k2: int| 0 <= k2 < k ==> #[trigger] h@.subrange(k2, k2 + n@.len()) != n@,
        ensures
            forall|k2: int| 0 <= k2 <= last ==> #[trigger] h@.subrange(k2, k2 + n@.len()) != n@,
        decreases last - k,
    {
        let window = slice_subrange(h, k, k + nl);
        if bytes_eq(window, n) {
            proof {
                assert(h@.subrange(k as int, k as int + n@.len()) == n@);
            }
            return true;
        }
        if k == last {
            break;
        }
        k = k + 1;
    }
    proof {
        if bytes_contain(h@, n@) {
            let k2 = choose|k2: int|
                0 <= k2 <= h@.len() - n@.len() && #[trigger] h@.subrange(k2, k2 + n@.len())
                    == n@;
            assert(false);
        }
    }
    false
}

// ---------------------------------------------------------------------------
// regular expressions
// ---------------------------------------------------------------------------

/// Whether the outside engine accepts this pattern.
pub uninterp spec fn regex_valid(pattern: Seq<char>) -> bool;

/// Whether the pattern matches somewhere in the text, as the outside engine
/// decides it.
pub uninterp spec fn regex_accepts(pattern: Seq<char>, text: Seq<char>) -> bool;

/// Relies on `regex::Regex::new` and `regex::Regex::is_match`: whether a
/// pattern compiles is a function of the pattern alone (with the default
/// builder settings), and whether it matches is a function of the pattern
/// and the haystack alone.  `None` reports an invalid pattern.
#[verifier::external_body]
pub fn regex_is_match(pattern: &str, text: &str) -> (r: Option<bool>)
    ensures
        r is Some <==> regex_valid(pattern@),
        r matches Some(b) ==> b == regex_accepts(pattern@, text@),
{
    regex::Regex::new(pattern).ok().map(|re| re.is_match(text))
}

// ---------------------------------------------------------------------------
// the search rule
// ---------------------------------------------------------------------------

/// How a search request filters names, after the request's parameters are
/// interpreted: by regular expression when asked for and the pattern is
/// three characters of substring otherwise, and not at all when the search
/// string is shorter than three characters.
pub enum SearchMode {
    /// Match names against this regular expression.
    Pattern(String),
    /// Match names that contain this string.
    Contains(String),
    /// Match nothing: the search string was too short.
    Nothing,
}

/// The mode a request selects: a regular expression when the request asks
/// for one, a substring when the search string has at least three bytes,
/// nothing otherwise.
pub open spec fn mode_of(search: Seq<char>, regex_wanted: bool) -> SearchModeView {
    if regex_wanted {
        SearchModeView::Pattern(search)
    } else if encode_utf8(search).len() >= 3 {
        SearchModeView::Contains(search)
    } else {
        SearchModeView::Nothing
    }
}

/// The mathematical shape of a search mode.
pub enum SearchModeView {
    Pattern(Seq<char>),
    Contains(Seq<char>),
    Nothing,
}

impl View for SearchMode {
    type V = SearchModeView;

    open spec fn view(&self) -> SearchModeView {
        match self {
            SearchMode::Pattern(p) => SearchModeView::Pattern(p@),
            SearchMode::Contains(s) => SearchModeView::Contains(s@),
            SearchMode::Nothing => SearchModeView::Nothing,
        }
    }
}

/// Interprets a request's `search` and `regex` parameters.
pub fn search_mode(search: &str, regex_wanted: bool) -> (r: SearchMode)
    ensures
        r@ == mode_of(search@, regex_wanted),
{
    let byte_len = search.as_bytes().len();
    if regex_wanted {
        SearchMode::Pattern(search.to_owned())
    } else if byte_len >= 3 {
        SearchMode::Contains(search.to_owned())
    } else {
        SearchMode::Nothing
    }
}

/// Whether `name` passes the search: an invalid pattern matches nothing.
pub open spec fn mode_matches(mode: SearchModeView, name: Seq<char>) -> bool {
    match mode {
        SearchModeView::Pattern(p) => regex_valid(p) && regex_accepts(p, name),
        SearchModeView::Contains(s) => bytes_contain(encode_utf8(name), encode_utf8(s)),
        SearchModeView::Nothing => false,
    }
}

/// Whether `name` passes the search, as `mode_matches` describes.
pub fn matches_name(mode: &SearchMode, name: &str) -> (r: bool)
    ensures
        r == mode_matches(mode@, name@),
{
    match mode {
        SearchMode::Pattern(p) => match regex_is_match(p.as_str(), name) {
            Some(b) => b,
            None => false,
        },
        SearchMode::Contains(s) => str_contains(name, s.as_str()),
        SearchMode::Nothing => false,
    }
}

// ---------------------------------------------------------------------------
// group lists
// ---------------------------------------------------------------------------

/// What a group listing shows of one consumer group.
pub struct GroupInfo {
    /// The group's state, or `Offsets only` when only offsets mention it.
    pub state: String,
    /// How many members are registered.
    pub members: usize,
    /// How many topics have stored offsets for the group.
    pub stored_offsets: usize,
}

impl View for GroupInfo {
    type V = (Seq<char>, int, int);

    open spec fn view(&self) -> (Seq<char>, int, int) {
        (self.state@, self.members as int, self.stored_offsets as int)
    }
}

impl DeepView for GroupInfo {
    type V = (Seq<char>, int, int);

    open spec fn deep_view(&self) -> (Seq<char>, int, int) {
        self@
    }
}

/// How the group endpoints select entries.  The query is tested against the
/// cluster, the topic and the group name an entry carries.
pub enum GroupQuery {
    /// All groups of one cluster.
    Cluster(ClusterId),
    /// Groups of one cluster on one topic.
    ClusterTopic(ClusterId, TopicName),
    /// Groups whose name passes a search.
    Name(SearchMode),
}

/// The mathematical shape of a group query.
pub enum GroupQueryView {
    Cluster(Seq<char>),
    ClusterTopic(Seq<char>, Seq<char>),
    Name(SearchModeView),
}

impl View for GroupQuery {
    type V = GroupQueryView;

    open spec fn view(&self) -> GroupQueryView {
        match self {
            GroupQuery::Cluster(c) => GroupQueryView::Cluster(c@),
            GroupQuery::ClusterTopic(c, t) => GroupQueryView::ClusterTopic(c@, t@),
            GroupQuery::Name(m) => GroupQueryView::Name(m@),
        }
    }
}

/// Whether an entry under `cluster` and `topic` whose group is called
/// `group` passes the query.
pub open spec fn query_matches(
    q: GroupQueryView,
    cluster: Seq<char>,
    topic: Seq<char>,
    group: Seq<char>,
) -> bool {
    match q {
        GroupQueryView::Cluster(c) => c == cluster,
        GroupQueryView::ClusterTopic(c, t) => c == cluster && t == topic,
        GroupQueryView::Name(m) => mode_matches(m, group),
    }
}

fn query_matches_exec(q: &GroupQuery, cluster: &str, topic: &str, group: &str) -> (r: bool)
    ensures
        r == query_matches(q@, cluster@, topic@, group@),
{
    match q {
        GroupQuery::Cluster(c) => str_eq(c.as_str(), cluster),
        GroupQuery::ClusterTopic(c, t) => str_eq(c.as_str(), cluster) && str_eq(
            t.as_str(),
            topic,
        ),
        GroupQuery::Name(m) => matches_name(m, group),
    }
}

/// One line of a group listing: the cluster, the group name, and what the
/// listing shows.
pub type GroupLineView = ((Seq<char>, Seq<char>), (Seq<char>, int, int));

/// `acc` with the entry for `key` replaced by `info`, or appended when no
/// entry carries `key` yet.
pub open spec fn upsert(acc: Seq<GroupLineView>, key: (Seq<char>, Seq<char>), info: (
    Seq<char>,
    int,
    int,
)) -> Seq<GroupLineView>
    decreases acc.len(),
{
    if acc.len() == 0 {
        seq![(key, info)]
    } else if acc[0].0 == key {
        seq![(key, info)] + acc.drop_first()
    } else {
        seq![acc[0]] + upsert(acc.drop_first(), key, info)
    }
}

/// `acc` with the stored-offsets count of `key` raised by one; an unknown
/// key is appended as an offsets-only group with one stored topic.
pub open spec fn bump(acc: Seq<GroupLineView>, key: (Seq<char>, Seq<char>)) -> Seq<GroupLineView>
    decreases acc.len(),
{
    if acc.len() == 0 {
        seq![(key, ("Offsets only"@, 0int, 1int))]
    } else if acc[0].0 == key {
        seq![(acc[0].0, (acc[0].1.0, acc[0].1.1, acc[0].1.2 + 1))] + acc.drop_first()
    } else {
        seq![acc[0]] + bump(acc.drop_first(), key)
    }
}

/// The listing the group entries contribute: for each entry passing the
/// query — its topic slot is the second component of the key it is stored
/// under — one line keyed by cluster and group name, later entries
/// overriding earlier ones.
pub open spec fn heads_of(
    items: Seq<((Seq<char>, Seq<char>), (Seq<char>, Seq<char>, Seq<(Seq<char>, Seq<char>, Seq<char>)>))>,
    q: GroupQueryView,
) -> Seq<GroupLineView>
    decreases items.len(),
{
    if items.len() == 0 {
        Seq::empty()
    } else {
        let acc = heads_of(items.drop_last(), q);
        let e = items.last();
        if query_matches(q, e.0.0, e.0.1, e.1.0) {
            upsert(acc, (e.0.0, e.1.0), (e.1.1, e.1.2.len() as int, 0))
        } else {
            acc
        }
    }
}

/// The listing after the offsets keys are counted in: every key passing the
/// query raises the stored-offsets count of its cluster and group, starting
/// a new offsets-only line when the group is not listed yet.
pub open spec fn counted(
    acc: Seq<GroupLineView>,
    offsets_keys: Seq<(Seq<char>, Seq<char>, Seq<char>)>,
    q: GroupQueryView,
) -> Seq<GroupLineView>
    decreases offsets_keys.len(),
{
    if offsets_keys.len() == 0 {
        acc
    } else {
        let a = counted(acc, offsets_keys.drop_last(), q);
        let k = offsets_keys.last();
        if query_matches(q, k.0, k.2, k.1) {
            bump(a, (k.0, k.1))
        } else {
            a
        }
    }
}

/// The index of the line carrying `key`, if one does.
fn find_line(acc: &Vec<((ClusterId, String), GroupInfo)>, cluster: &str, group: &str) -> (r:
    Option<usize>)
    ensures
        match r {
            Some(i) => i < acc@.len() && acc.deep_view()[i as int].0 == (cluster@, group@)
                && (forall|j: int| 0 <= j < i ==> (#[trigger] acc.deep_view()[j]).0 != (
                cluster@,
                group@,
            )),
            None => forall|j: int|
                0 <= j < acc@.len() ==> (#[trigger] acc.deep_view()[j]).0 != (cluster@, group@),
        },
{
    let n = acc.len();
    let mut i: usize = 0;
    while i < n
        invariant
            i <= n,
            n == acc@.len(),
            acc.deep_view().len() == n,
            forall|j: int| 0 <= j < i ==> (#[trigger] acc.deep_view()[j]).0 != (cluster@, group@),
        decreases n - i,
    {
        let line: &((ClusterId, String), GroupInfo) = &acc[i];
        proof {
            assert(acc.deep_view()[i as int] == acc@[i as int].deep_view());
        }
        if str_eq(line.0.0.as_str(), cluster) && str_eq(line.0.1.as_str(), group) {
            return Some(i);
        }
        i = i + 1;
    }
    None
}

/// When line `i` is the first with `key`, replacing it is the upsert.
proof fn lemma_upsert_at(
    acc: Seq<GroupLineView>,
    key: (Seq<char>, Seq<char>),
    info: (Seq<char>, int, int),
    i: int,
)
    requires
        0 <= i < acc.len(),
        acc[i].0 == key,
        forall|j: int| 0 <= j < i ==> (#[trigger] acc[j]).0 != key,
    ensures
        upsert(acc, key, info) == acc.update(i, (key, info)),
    decreases acc.len(),
{
    if i == 0 {
        assert(upsert(acc, key, info) =~= acc.update(0, (key, info)));
    } else {
        assert(acc.drop_first()[i - 1].0 == key);
        assert forall|j: int| 0 <= j < i - 1 implies (#[trigger] acc.drop_first()[j]).0
            != key by {
            assert(acc.drop_first()[j] == acc[j + 1]);
        }
        lemma_upsert_at(acc.drop_first(), key, info, i - 1);
        assert(upsert(acc, key, info) =~= acc.update(i, (key, info)));
    }
}

/// When no line has `key`, the upsert appends.
proof fn lemma_upsert_new(acc: Seq<GroupLineView>, key: (Seq<char>, Seq<char>), info: (
    Seq<char>,
    int,
    int,
))
    requires
        forall|j: int| 0 <= j < acc.len() ==> (#[trigger] acc[j]).0 != key,
    ensures
        upsert(acc, key, info) == acc.push((key, info)),
    decreases acc.len(),
{
    if acc.len() == 0 {
        assert(upsert(acc, key, info) =~= acc.push((key, info)));
    } else {
        assert forall|j: int| 0 <= j < acc.drop_first().len() implies (#[trigger] acc.drop_first(
        )[j]).0 != key by {
            assert(acc.drop_first()[j] == acc[j + 1]);
        }
        lemma_upsert_new(acc.drop_first(), key, info);
        assert(upsert(acc, key, info) =~= acc.push((key, info)));
    }
}

/// When line `i` is the first with `key`, raising its count is the bump.
proof fn lemma_bump_at(acc: Seq<GroupLineView>, key: (Seq<char>, Seq<char>), i: int)
    requires
        0 <= i < acc.len(),
        acc[i].0 == key,
        forall|j: int| 0 <= j < i ==> (#[trigger] acc[j]).0 != key,
    ensures
        bump(acc, key) == acc.update(i, (acc[i].0, (acc[i].1.0, acc[i].1.1, acc[i].1.2 + 1))),
    decreases acc.len(),
{
    if i == 0 {
        assert(bump(acc, key) =~= acc.update(0, (acc[0].0, (acc[0].1.0, acc[0].1.1, acc[0].1.2
            + 1))));
    } else {
        assert(acc.drop_first()[i - 1].0 == key);
        assert forall|j: int| 0 <= j < i - 1 implies (#[trigger] acc.drop_first()[j]).0
            != key by {
            assert(acc.drop_first()[j] == acc[j + 1]);
        }
        lemma_bump_at(acc.drop_first(), key, i - 1);
        assert(bump(acc, key) =~= acc.update(i, (acc[i].0, (acc[i].1.0, acc[i].1.1, acc[i].1.2
            + 1))));
    }
}

/// When no line has `key`, the bump appends an offsets-only line.
proof fn lemma_bump_new(acc: Seq<GroupLineView>, key: (Seq<char>, Seq<char>))
    requires
        forall|j: int| 0 <= j < acc.len() ==> (#[trigger] acc[j]).0 != key,
    ensures
        bump(acc, key) == acc.push((key, ("Offsets only"@, 0int, 1int))),
    decreases acc.len(),
{
    if acc.len() == 0 {
        assert(bump(acc, key) =~= acc.push((key, ("Offsets only"@, 0int, 1int))));
    } else {
        assert forall|j: int| 0 <= j < acc.drop_first().len() implies (#[trigger] acc.drop_first(
        )[j]).0 != key by {
            assert(acc.drop_first()[j] == acc[j + 1]);
        }
        lemma_bump_new(acc.drop_first(), key);
        assert(bump(acc, key) =~= acc.push((key, ("Offsets only"@, 0int, 1int))));
    }
}

/// Builds the group listing: one line per group passing the query, with its
/// state and member count from the groups cache, and the number of topics
/// with stored offsets counted from the offsets cache; a group that only the
/// offsets cache mentions is listed as offsets-only.
pub fn build_group_list(
    groups_items: &Vec<((ClusterId, String), Group)>,
    offsets_keys: &Vec<(ClusterId, String, TopicName)>,
    q: &GroupQuery,
) -> (r: Vec<((ClusterId, String), GroupInfo)>)
    ensures
        r.deep_view() == counted(
            heads_of(groups_items.deep_view(), q@),
            offsets_keys.deep_view(),
            q@,
        ),
{
    let ghost gv = groups_items.deep_view();
    let ghost ov = offsets_keys.deep_view();
    let mut acc: Vec<((ClusterId, String), GroupInfo)> = Vec::new();
    let n = groups_items.len();
    let mut i: usize = 0;
    while i < n
        invariant
            i <= n,
            n == groups_items@.len(),
            gv == groups_items.deep_view(),
            gv.len() == n,
            acc.deep_view() == heads_of(gv.take(i as int), q@),
            forall|j: int| 0 <= j < acc@.len() ==> (#[trigger] acc.deep_view()[j]).1.2 == 0,
        decreases n - i,
    {
        let item: &((ClusterId, String), Group) = &groups_items[i];
        proof {
            assert(gv[i as int] == groups_items@[i as int].deep_view());
            assert(gv.take(i + 1).drop_last() =~= gv.take(i as int));
            assert(gv.take(i + 1).last() == gv[i as int]);
        }
        if query_matches_exec(q, item.0.0.as_str(), item.0.1.as_str(), item.1.name.as_str()) {
            let key: (ClusterId, String) = (item.0.0.clone(), item.1.name.clone());
            let info = GroupInfo {
                state: item.1.state.clone(),
                members: item.1.members.len(),
                stored_offsets: 0,
            };
            let ghost prev = acc.deep_view();
            match find_line(&acc, key.0.as_str(), key.1.as_str()) {
                Some(at) => {
                    proof {
                        lemma_upsert_at(
                            prev,
                            (key.0@, key.1@),
                            (info.state@, info.members as int, 0int),
                            at as int,
                        );
                    }
                    acc[at] = (key, info);
                    proof {
                        assert(acc.deep_view() =~= upsert(
                            prev,
                            (gv[i as int].0.0, gv[i as int].1.0),
                            (gv[i as int].1.1, gv[i as int].1.2.len() as int, 0int),
                        ));
                        assert(forall|j: int|
                            0 <= j < acc@.len() ==> (#[trigger] acc.deep_view()[j]).1.2 == 0);
                    }
                },
                None => {
                    proof {
                        lemma_upsert_new(
                            prev,
                            (key.0@, key.1@),
                            (info.state@, info.members as int, 0int),
                        );
                    }
                    acc.push((key, info));
                    proof {
                        assert(acc.deep_view() =~= upsert(
                            prev,
                            (gv[i as int].0.0, gv[i as int].1.0),
                            (gv[i as int].1.1, gv[i as int].1.2.len() as int, 0int),
                        ));
                        assert(forall|j: int|
                            0 <= j < acc@.len() ==> (#[trigger] acc.deep_view()[j]).1.2 == 0);
                    }
                },
            }
        }
        i = i + 1;
    }
    proof {
        assert(gv.take(n as int) =~= gv);
    }
    let m = offsets_keys.len();
    let mut l: usize = 0;
    while l < m
        invariant
            l <= m,
            m == offsets_keys@.len(),
            ov == offsets_keys.deep_view(),
            gv == groups_items.deep_view(),
            ov.len() == m,
            acc.deep_view() == counted(heads_of(gv, q@), ov.take(l as int), q@),
            forall|j: int| 0 <= j < acc@.len() ==> (#[trigger] acc.deep_view()[j]).1.2 <= l,
        decreases m - l,
    {
        let k: &(ClusterId, String, TopicName) = &offsets_keys[l];
        proof {
            assert(ov[l as int] == offsets_keys@[l as int].deep_view());
            assert(ov.take(l + 1).drop_last() =~= ov.take(l as int));
            assert(ov.take(l + 1).last() == ov[l as int]);
        }
        if query_matches_exec(q, k.0.as_str(), k.2.as_str(), k.1.as_str()) {
            let ghost prev = acc.deep_view();
            match find_line(&acc, k.0.as_str(), k.1.as_str()) {
                Some(at) => {
                    proof {
                        lemma_bump_at(prev, (k.0@, k.1@), at as int);
                    }
                    let line: &((ClusterId, String), GroupInfo) = &acc[at];
                    proof {
                        assert(acc.deep_view()[at as int].1.2 <= l);
                        assert(acc.deep_view()[at as int] == acc@[at as int].deep_view());
                    }
                    let bumped = GroupInfo {
                        state: line.1.state.clone(),
                        members: line.1.members,
                        stored_offsets: line.1.stored_offsets + 1,
                    };
                    let newkey: (ClusterId, String) = (line.0.0.clone(), line.0.1.clone());
                    acc[at] = (newkey, bumped);
                    proof {
                        assert(acc.deep_view() =~= bump(prev, (ov[l as int].0, ov[l as int].1)));
                    }
                },
                None => {
                    proof {
                        lemma_bump_new(prev, (k.0@, k.1@));
                    }
                    acc.push(
                        (
                            (k.0.clone(), k.1.clone()),
                            GroupInfo { state: "Offsets only".to_owned(), members: 0, stored_offsets: 1 },
                        ),
                    );
                    proof {
                        assert(acc.deep_view() =~= bump(prev, (ov[l as int].0, ov[l as int].1)));
                    }
                },
            }
        }
        l = l + 1;
    }
    proof {
        assert(ov.take(m as int) =~= ov);
    }
    acc
}

// ---------------------------------------------------------------------------
// topic lists
// ---------------------------------------------------------------------------

/// The topic entries that pass a test on cluster and topic name, in order.
pub open spec fn topics_passing(
    items: Seq<((Seq<char>, Seq<char>), <Vec<Partition> as DeepView>::V)>,
    q: GroupQueryView,
) -> Seq<((Seq<char>, Seq<char>), <Vec<Partition> as DeepView>::V)>
    decreases items.len(),
{
    if items.len() == 0 {
        Seq::empty()
    } else {
        let acc = topics_passing(items.drop_last(), q);
        let e = items.last();
        if query_matches(q, e.0.0, e.0.1, e.0.1) {
            acc.push(e)
        } else {
            acc
        }
    }
}

/// The entries of the topics cache that pass the query; the query's topic
/// and name slots are both tested against the topic's name.
pub fn filter_topics(
    items: &Vec<((ClusterId, TopicName), Vec<Partition>)>,
    q: &GroupQuery,
) -> (r: Vec<((ClusterId, TopicName), Vec<Partition>)>)
    ensures
        r.deep_view() == topics_passing(items.deep_view(), q@),
{
    let ghost iv = items.deep_view();
    let mut out: Vec<((ClusterId, TopicName), Vec<Partition>)> = Vec::new();
    let n = items.len();
    let mut i: usize = 0;
    while i < n
        invariant
            i <= n,
            n == items@.len(),
            iv == items.deep_view(),
            iv.len() == n,
            out.deep_view() == topics_passing(iv.take(i as int), q@),
        decreases n - i,
    {
        let item: &((ClusterId, TopicName), Vec<Partition>) = &items[i];
        proof {
            assert(iv[i as int] == items@[i as int].deep_view());
            assert(iv.take(i + 1).drop_last() =~= iv.take(i as int));
            assert(iv.take(i + 1).last() == iv[i as int]);
        }
        if query_matches_exec(q, item.0.0.as_str(), item.0.1.as_str(), item.0.1.as_str()) {
            let ghost prev = out.deep_view();
            out.push(((item.0.0.clone(), item.0.1.clone()), item.1.dup()));
            proof {
                assert(out.deep_view() =~= prev.push(iv[i as int]));
            }
        }
        i = i + 1;
    }
    proof {
        assert(iv.take(n as int) =~= iv);
    }
    out
}

} // verus!
