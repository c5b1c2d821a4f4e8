//! Where a torrent's data can come from: trackers, HTTP seeders, or both.
use vstd::prelude::*;
use vstd::utf8::*;
use crate::meta_info::{attr_padding, Files, MetaInfo, MultiFiles};
use crate::trackers::{classified, Tracker, TrackerList};

verus! {

broadcast use vstd::std_specs::vec::group_vec_axioms, vstd::seq::group_seq_axioms;

/// The seeder base URL as a directory: with a trailing `/`.
pub open spec fn base_dir(base: Seq<char>) -> Seq<char> {
    if encode_utf8(base).len() > 0 && encode_utf8(base).last() == 47u8 {
        base
    } else {
        base + "/"@
    }
}

/// One URL per path segment of a file entry.
pub open spec fn segment_urls(dir: Seq<char>, name: Seq<char>, segs: Seq<String>) -> Seq<Seq<char>> {
    Seq::new(segs.len(), |j: int| dir + name + "/"@ + segs[j]@)
}

/// The URLs of the files that are not padding files, in order.
pub open spec fn multi_urls(dir: Seq<char>, name: Seq<char>, files: Seq<MultiFiles>) -> Seq<Seq<char>>
    decreases files.len(),
{
    if files.len() == 0 {
        Seq::empty()
    } else {
        multi_urls(dir, name, files.drop_last()) + if files.last().view().attr == Some(attr_padding()) {
            Seq::<Seq<char>>::empty()
        } else {
            segment_urls(dir, name, files.last().path@)
        }
    }
}

/// The URLs that an HTTP seeder at `base` serves a torrent's files from.
pub open spec fn seeder_urls(base: Seq<char>, m: MetaInfo) -> Seq<Seq<char>> {
    match m.info.files {
        Files::SingleFile { attr, .. } => if crate::meta_info::opt_attr_view(attr) == Some(attr_padding()) {
            Seq::empty()
        } else {
            seq![base + m.info.name@]
        },
        Files::MultiFile { files } => multi_urls(base_dir(base), m.info.name@, files@),
    }
}

pub open spec fn strings_chars(s: Seq<String>) -> Seq<Seq<char>> {
    Seq::new(s.len(), |i: int| s[i]@)
}

/// The file URLs of one HTTP seeder.
#[derive(Debug)]
pub struct HttpSeeder {
    urls: Vec<String>,
}

impl HttpSeeder {
    pub closed spec fn spec_urls(&self) -> Seq<Seq<char>> {
        strings_chars(self.urls@)
    }

    /// The file URLs under the seeder base URL `base_url`.
    pub fn new(base_url: &str, meta_info: &MetaInfo) -> (r: HttpSeeder)
        ensures
            r.spec_urls() == seeder_urls(base_url@, *meta_info),
    {
        let name = meta_info.info.name.as_str();
        match &meta_info.info.files {
            Files::SingleFile { attr, .. } => {
                let pad = match attr {
                    Some(a) => a.is_padding_file(),
                    None => false,
                };
                if pad {
                    let r = HttpSeeder { urls: Vec::new() };
                    assert(r.spec_urls() =~= Seq::<Seq<char>>::empty());
                    r
                } else {
                    let mut url = base_url.to_string();
                    url.append(name);
                    let r = HttpSeeder { urls: vec![url] };
                    assert(r.spec_urls() =~= seq![base_url@ + name@]);
                    r
                }
            },
            Files::MultiFile { files } => {
                let b = base_url.as_bytes();
                let mut dir = base_url.to_string();
                if !(b.len() > 0 && b[b.len() - 1] == 47u8) {
                    dir.append("/");
                }
                let mut urls: Vec<String> = Vec::new();
                let mut i: usize = 0;
                assert(files@.subrange(0, 0) =~= Seq::<MultiFiles>::empty());
                assert(strings_chars(urls@) =~= Seq::<Seq<char>>::empty());
                while i < files.len()
                    invariant
                        0 <= i <= files@.len(),
                        dir@ == base_dir(base_url@),
                        name@ == meta_info.info.name@,
                        strings_chars(urls@) == multi_urls(dir@, name@, files@.subrange(0, i as int)),
                    decreases files@.len() - i,
                {
                    let f = &files[i];
                    let ghost before = strings_chars(urls@);
                    proof {
                        assert(files@.subrange(0, i + 1).drop_last() =~= files@.subrange(0, i as int));
                        assert(files@.subrange(0, i + 1).last() == *f);
                    }
                    if !f.is_padding() {
                        let mut j: usize = 0;
                        while j < f.path.len()
                            invariant
                                0 <= j <= f.path@.len(),
                                strings_chars(urls@) == before + segment_urls(dir@, name@, f.path@.subrange(0, j as int)),
                            decreases f.path@.len() - j,
                        {
                            let mut url = dir.clone();
                            url.append(name);
                            url.append("/");
                            url.append(f.path[j].as_str());
                            let ghost prev = urls@;
                            let ghost uv = url@;
                            urls.push(url);
                            assert(strings_chars(urls@) =~= strings_chars(prev).push(uv));
                            assert(f.path@.subrange(0, j + 1)[j as int] == f.path@[j as int]);
                            assert(segment_urls(dir@, name@, f.path@.subrange(0, j + 1)) =~= segment_urls(dir@, name@, f.path@.subrange(0, j as int)).push(uv));
                            assert(strings_chars(urls@) =~= before + segment_urls(dir@, name@, f.path@.subrange(0, j + 1)));
                            j = j + 1;
                        }
                        assert(f.path@.subrange(0, f.path@.len() as int) =~= f.path@);
                    } else {
                        assert(strings_chars(urls@) =~= before + Seq::<Seq<char>>::empty());
                    }
                    i = i + 1;
                }
                assert(files@.subrange(0, files@.len() as int) =~= files@);
                HttpSeeder { urls }
            },
        }
    }

    pub fn urls(&self) -> (r: &[String])
        ensures
            strings_chars(r@) == self.spec_urls(),
    {
        self.urls.as_slice()
    }
}

/// One file request to an HTTP seeder.
#[derive(Debug)]
pub struct HttpSeederRequest {
    url: String,
}

impl HttpSeederRequest {
    pub closed spec fn spec_url(&self) -> Seq<char> {
        self.url@
    }

    /// `base_url`, then `name/` when given, then `file_path`.
    pub fn new(base_url: &str, name: Option<&str>, file_path: &str) -> (r: HttpSeederRequest)
        ensures
            r.spec_url() == base_url@ + match name {
                Some(n) => n@ + "/"@,
                None => Seq::<char>::empty(),
            } + file_path@,
    {
        let mut url = String::new();
        url.append(base_url);
        if let Some(n) = name {
            url.append(n);
            url.append("/");
        }
        url.append(file_path);
        HttpSeederRequest { url }
    }

    pub fn to_url(&self) -> (r: &str)
        ensures
            r@ == self.spec_url(),
    {
        self.url.as_str()
    }
}

/// HTTP seeders, each with its base URL.
#[derive(Debug)]
pub struct HttpSeederList {
    http_seeder_list: Vec<(String, HttpSeeder)>,
}

impl HttpSeederList {
    pub closed spec fn spec_list(&self) -> Seq<(String, HttpSeeder)> {
        self.http_seeder_list@
    }

    pub fn new(http_seeder_list: Vec<(String, HttpSeeder)>) -> (r: HttpSeederList)
        ensures
            r.spec_list() == http_seeder_list@,
    {
        HttpSeederList { http_seeder_list }
    }

    pub fn http_seeder_list(&self) -> (r: &[(String, HttpSeeder)])
        ensures
            r@ == self.spec_list(),
    {
        self.http_seeder_list.as_slice()
    }

    pub fn len(&self) -> (r: usize)
        ensures
            r == self.spec_list().len(),
    {
        self.http_seeder_list.len()
    }

    pub fn is_empty(&self) -> (r: bool)
        ensures
            r == (self.spec_list().len() == 0),
    {
        self.http_seeder_list.len() == 0
    }
}

/// The announce URLs of a torrent: every URL of `announce-list` when it is
/// there, else `announce`.
pub open spec fn tracker_urls(m: MetaInfo) -> Seq<Seq<char>> {
    match m.announce_list {
        Some(l) => flatten_urls(l@),
        None => match m.announce {
            Some(a) => seq![a@],
            None => Seq::empty(),
        },
    }
}

pub open spec fn flatten_urls(l: Seq<Vec<String>>) -> Seq<Seq<char>>
    decreases l.len(),
{
    if l.len() == 0 {
        Seq::empty()
    } else {
        flatten_urls(l.drop_last()) + strings_chars(l.last()@)
    }
}

/// The non-empty seeder base URLs, in order.
pub open spec fn seeder_bases(l: Seq<String>) -> Seq<Seq<char>>
    decreases l.len(),
{
    if l.len() == 0 {
        Seq::empty()
    } else {
        seeder_bases(l.drop_last()) + if l.last()@.len() == 0 {
            Seq::<Seq<char>>::empty()
        } else {
            seq![l.last()@]
        }
    }
}

pub open spec fn tracker_list_urls(t: TrackerList) -> Seq<Seq<char>> {
    Seq::new(t.spec_list().len(), |i: int| t.spec_list()[i].spec_url())
}

pub open spec fn seeder_list_bases(s: HttpSeederList) -> Seq<Seq<char>> {
    Seq::new(s.spec_list().len(), |i: int| s.spec_list()[i].0@)
}

/// Each seeder serves the file URLs under its base URL.
pub open spec fn seeders_match(s: HttpSeederList, m: MetaInfo) -> bool {
    forall|i: int| 0 <= i < s.spec_list().len() ==> #[trigger] s.spec_list()[i].1.spec_urls() == seeder_urls(s.spec_list()[i].0@, m)
}

/// Every tracker of the list is what [`Tracker::new`] makes of its URL.
pub open spec fn all_classified(t: TrackerList) -> bool {
    forall|i: int| 0 <= i < t.spec_list().len() ==> classified(#[trigger] t.spec_list()[i])
}

fn build_tracker_list(m: &MetaInfo) -> (r: TrackerList)
    ensures
        tracker_list_urls(r) == tracker_urls(*m),
        all_classified(r),
{
    let mut list: Vec<Tracker> = Vec::new();
    match &m.announce_list {
        Some(al) => {
            let mut i: usize = 0;
            assert(al@.subrange(0, 0) =~= Seq::<Vec<String>>::empty());
            while i < al.len()
                invariant
                    m.announce_list == Some(*al),
                    0 <= i <= al@.len(),
                    forall|k: int| 0 <= k < list@.len() ==> classified(#[trigger] list@[k]),
                    Seq::new(list@.len(), |k: int| list@[k].spec_url()) == flatten_urls(al@.subrange(0, i as int)),
                decreases al@.len() - i,
            {
                let ghost before = Seq::new(list@.len(), |k: int| list@[k].spec_url());
                proof {
                    assert(al@.subrange(0, i + 1).drop_last() =~= al@.subrange(0, i as int));
                    assert(al@.subrange(0, i + 1).last() == al@[i as int]);
                }
                let tier = &al[i];
                let mut j: usize = 0;
                assert(strings_chars(tier@.subrange(0, 0)) =~= Seq::<Seq<char>>::empty());
                while j < tier.len()
                    invariant
                        0 <= j <= tier@.len(),
                        forall|k: int| 0 <= k < list@.len() ==> classified(#[trigger] list@[k]),
                        Seq::new(list@.len(), |k: int| list@[k].spec_url()) == before + strings_chars(tier@.subrange(0, j as int)),
                    decreases tier@.len() - j,
                {
                    let t = Tracker::new(tier[j].as_str());
                    assert(t.spec_url() == tier@[j as int]@);
                    let ghost prev = list@;
                    list.push(t);
                    assert(Seq::new(list@.len(), |k: int| list@[k].spec_url()) =~= Seq::new(prev.len(), |k: int| prev[k].spec_url()).push(tier@[j as int]@));
                    assert(strings_chars(tier@.subrange(0, j + 1)) =~= strings_chars(tier@.subrange(0, j as int)).push(tier@[j as int]@));
                    assert(Seq::new(list@.len(), |k: int| list@[k].spec_url()) =~= before + strings_chars(tier@.subrange(0, j + 1)));
                    j = j + 1;
                }
                assert(tier@.subrange(0, tier@.len() as int) =~= tier@);
                i = i + 1;
            }
            assert(al@.subrange(0, al@.len() as int) =~= al@);
        },
        None => match &m.announce {
            Some(a) => {
                list.push(Tracker::new(a.as_str()));
                assert(Seq::new(list@.len(), |k: int| list@[k].spec_url()) =~= seq![a@]);
            },
            None => {
                assert(Seq::new(list@.len(), |k: int| list@[k].spec_url()) =~= Seq::<Seq<char>>::empty());
            },
        },
    }
    TrackerList::new(list)
}

fn build_seeders(ul: &Vec<String>, m: &MetaInfo) -> (r: HttpSeederList)
    ensures
        seeder_list_bases(r) == seeder_bases(ul@),
        forall|i: int| 0 <= i < r.spec_list().len() ==> #[trigger] r.spec_list()[i].1.spec_urls() == seeder_urls(r.spec_list()[i].0@, *m),
{
    let mut list: Vec<(String, HttpSeeder)> = Vec::new();
    let mut i: usize = 0;
    assert(ul@.subrange(0, 0) =~= Seq::<String>::empty());
    while i < ul.len()
        invariant
            0 <= i <= ul@.len(),
            Seq::new(list@.len(), |k: int| list@[k].0@) == seeder_bases(ul@.subrange(0, i as int)),
            forall|k: int| 0 <= k < list@.len() ==> #[trigger] list@[k].1.spec_urls() == seeder_urls(list@[k].0@, *m),
        decreases ul@.len() - i,
    {
        let ghost before = Seq::new(list@.len(), |k: int| list@[k].0@);
        proof {
            assert(ul@.subrange(0, i + 1).drop_last() =~= ul@.subrange(0, i as int));
            assert(ul@.subrange(0, i + 1).last() == ul@[i as int]);
        }
        let u = &ul[i];
        if !u.as_str().is_empty() {
            let s = HttpSeeder::new(u.as_str(), m);
            list.push((u.clone(), s));
            assert(Seq::new(list@.len(), |k: int| list@[k].0@) =~= before + seq![u@]);
        } else {
            assert(before + Seq::<Seq<char>>::empty() =~= before);
        }
        i = i + 1;
    }
    assert(ul@.subrange(0, ul@.len() as int) =~= ul@);
    HttpSeederList::new(list)
}

/// Where to download from.
#[derive(Debug)]
pub enum DownloadSources {
    Trackers { tracker_list: TrackerList },
    HttpSeeders { http_seeder_list: HttpSeederList },
    Hybrid { tracker_list: TrackerList, http_seeder_list: HttpSeederList },
}

impl DownloadSources {
    /// Chooses the sources of a torrent: trackers when it lists only
    /// trackers, seeders when it lists only seeders, both when it lists both
    /// (trackers alone when no seeder URL is usable). A torrent that lists
    /// neither fails.
    pub fn new(meta_info: &MetaInfo) -> (r: Result<DownloadSources, String>)
        ensures
            r is Err <==> meta_info.url_list is None && meta_info.announce is None && meta_info.announce_list is None,
            r matches Ok(DownloadSources::Trackers { tracker_list }) ==> tracker_list_urls(tracker_list) == tracker_urls(*meta_info)
                && (meta_info.url_list matches Some(ul) ==> seeder_bases(ul@).len() == 0),
            r matches Ok(DownloadSources::HttpSeeders { http_seeder_list }) ==> meta_info.announce is None
                && meta_info.announce_list is None && (meta_info.url_list matches Some(ul)
                && seeder_list_bases(http_seeder_list) == seeder_bases(ul@)),
            r matches Ok(DownloadSources::Hybrid { tracker_list, http_seeder_list }) ==> tracker_list_urls(tracker_list) == tracker_urls(*meta_info)
                && (meta_info.url_list matches Some(ul) && seeder_list_bases(http_seeder_list) == seeder_bases(ul@)
                && seeder_bases(ul@).len() > 0),
            r matches Ok(DownloadSources::HttpSeeders { http_seeder_list }) ==> seeders_match(http_seeder_list, *meta_info),
            r matches Ok(DownloadSources::Trackers { tracker_list }) ==> all_classified(tracker_list),
            r matches Ok(DownloadSources::Hybrid { tracker_list, .. }) ==> all_classified(tracker_list),
            r matches Ok(DownloadSources::Hybrid { http_seeder_list, .. }) ==> seeders_match(http_seeder_list, *meta_info),
            meta_info.url_list is None && !(meta_info.announce is None && meta_info.announce_list is None) ==> r matches Ok(DownloadSources::Trackers { .. }),
            meta_info.url_list is Some && meta_info.announce is None && meta_info.announce_list is None ==> r matches Ok(DownloadSources::HttpSeeders { .. }),
    {
        let has_trackers = meta_info.announce.is_some() || meta_info.announce_list.is_some();
        match &meta_info.url_list {
            Some(ul) => {
                let seeders = build_seeders(ul, meta_info);
                if has_trackers {
                    if seeders.is_empty() {
                        Ok(DownloadSources::Trackers { tracker_list: build_tracker_list(meta_info) })
                    } else {
                        Ok(DownloadSources::Hybrid { tracker_list: build_tracker_list(meta_info), http_seeder_list: seeders })
                    }
                } else {
                    Ok(DownloadSources::HttpSeeders { http_seeder_list: seeders })
                }
            },
            None => {
                if has_trackers {
                    Ok(DownloadSources::Trackers { tracker_list: build_tracker_list(meta_info) })
                } else {
                    Err("The torrent lists neither trackers nor seeders".to_string())
                }
            },
        }
    }

    pub fn trackers(&self) -> (r: Option<&TrackerList>)
        ensures
            self is HttpSeeders <==> r is None,
            self is Trackers ==> r == Some(&self->Trackers_tracker_list),
            self is Hybrid ==> r == Some(&self->Hybrid_tracker_list),
    {
        match self {
            DownloadSources::Trackers { tracker_list } => Some(tracker_list),
            DownloadSources::Hybrid { tracker_list, .. } => Some(tracker_list),
            DownloadSources::HttpSeeders { .. } => None,
        }
    }

    pub fn is_trackers(&self) -> (r: bool)
        ensures
            r == self is Trackers,
    {
        matches!(self, DownloadSources::Trackers { .. })
    }

    pub fn http_seeders(&self) -> (r: Option<&HttpSeederList>)
        ensures
            self is Trackers <==> r is None,
            self is HttpSeeders ==> r == Some(&self->HttpSeeders_http_seeder_list),
            self is Hybrid ==> r == Some(&self->Hybrid_http_seeder_list),
    {
        match self {
            DownloadSources::HttpSeeders { http_seeder_list } => Some(http_seeder_list),
            DownloadSources::Hybrid { http_seeder_list, .. } => Some(http_seeder_list),
            DownloadSources::Trackers { .. } => None,
        }
    }

    pub fn is_http_seeders(&self) -> (r: bool)
        ensures
            r == self is HttpSeeders,
    {
        matches!(self, DownloadSources::HttpSeeders { .. })
    }

    pub fn hybrid(&self) -> (r: Option<(&TrackerList, &HttpSeederList)>)
        ensures
            self is Hybrid <==> r is Some,
            self is Hybrid ==> r == Some((&self->Hybrid_tracker_list, &self->Hybrid_http_seeder_list)),
    {
        match self {
            DownloadSources::Hybrid { tracker_list, http_seeder_list } => Some((tracker_list, http_seeder_list)),
            _ => None,
        }
    }

    pub fn is_hybrid(&self) -> (r: bool)
        ensures
            r == self is Hybrid,
    {
        matches!(self, DownloadSources::Hybrid { .. })
    }
}

} // verus!
