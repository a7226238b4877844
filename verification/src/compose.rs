//! The compose-document model and the frontend that turns a parsed document
//! into a composition: one image to pull or build per service, and one
//! container specification per declared replica, named
//! `{project}_{service}_{index}`.

use vstd::prelude::*;
use vstd::string::{StrSliceExecFns, StringExecFns};
use crate::labels::LabelMap;
use crate::models::{
    Composition, ContainerName, ContainerSpec, ImageBuildSpec, ImageName, ImagePullSpec,
};
use crate::services::ComposerFrontend;
use crate::text::{replica_name, replica_name_seq};

verus! {

/// Labels or build arguments as a compose document writes them: a mapping,
/// or a list of `KEY=VALUE` lines.
#[derive(Clone, Debug)]
pub enum MapList {
    Mapping(LabelMap),
    List(Vec<String>),
}

/// The build stanza of a service: a bare context path, or the extended form.
#[derive(Clone, Debug)]
pub enum Build {
    Short(String),
    Extended {
        context: String,
        dockerfile: Option<String>,
        args: MapList,
        cache_from: Vec<String>,
        labels: MapList,
        shm_size: Option<String>,
        target: Option<String>,
    },
}

/// One service as a compose document declares it.
#[derive(Clone, Debug)]
pub struct Service {
    pub replicas: Option<u64>,
    pub image: Option<String>,
    pub build: Option<Build>,
    pub ports: Vec<String>,
}

/// A parsed compose document: its version, and its services in the order the
/// reader hands them over.
#[derive(Clone, Debug)]
pub struct DockerComposeFile {
    pub version: String,
    pub services: Vec<(String, Service)>,
}

/// Splits one `KEY=VALUE` line before its first `=`; the value keeps the
/// `=` itself, and a line without one is all key.
pub open spec fn split_pair(s: Seq<char>) -> (Seq<char>, Seq<char>)
    decreases s.len(),
{
    if s.len() == 0 {
        (Seq::empty(), Seq::empty())
    } else if s[0] == '=' {
        (Seq::empty(), s)
    } else {
        let rest = split_pair(s.skip(1));
        (seq![s[0]] + rest.0, rest.1)
    }
}

/// The map a list of `KEY=VALUE` lines holds; a later line overrides an
/// earlier one with the same key.
pub open spec fn lines_map_of(items: Seq<String>) -> Map<Seq<char>, Seq<char>>
    decreases items.len(),
{
    if items.len() == 0 {
        Map::empty()
    } else {
        lines_map_of(items.drop_last()).insert(
            split_pair(items.last()@).0,
            split_pair(items.last()@).1,
        )
    }
}

impl MapList {
    /// A held mapping is in canonical order; a list always is well-formed.
    pub open spec fn wf(&self) -> bool {
        match self {
            MapList::Mapping(m) => m.wf(),
            MapList::List(_) => true,
        }
    }

    /// The map this value holds, whichever way it is written.
    pub open spec fn map_view(&self) -> Map<Seq<char>, Seq<char>> {
        match self {
            MapList::Mapping(m) => m@,
            MapList::List(items) => lines_map_of(items@),
        }
    }

    /// The map this value holds: the mapping itself, or each `KEY=VALUE`
    /// line split at its first `=`.
    pub fn to_map(self) -> (r: LabelMap)
        requires
            self.wf(),
        ensures
            r.wf(),
            r@ == self.map_view(),
    {
        match self {
            MapList::Mapping(m) => m,
            MapList::List(items) => {
                let n = items.len();
                let mut out = LabelMap::new();
                let mut i: usize = 0;
                while i < n
                    invariant
                        i <= n,
                        n == items@.len(),
                        out.wf(),
                        out@ == lines_map_of(items@.take(i as int)),
                    decreases n - i,
                {
                    let (key, value) = MapList::split_value(&items[i]);
                    out.insert(key, value);
                    proof {
                        assert(items@.take(i + 1).drop_last() =~= items@.take(i as int));
                        assert(items@.take(i + 1).last() == items@[i as int]);
                    }
                    i = i + 1;
                }
                proof {
                    assert(items@.take(n as int) =~= items@);
                }
                out
            },
        }
    }

    /// A copy of the value: a mapping copies its entries, a list its lines.
    pub fn duplicate(&self) -> (r: MapList)
        ensures
            r.wf() == self.wf(),
            r.map_view() == self.map_view(),
    {
        match self {
            MapList::Mapping(m) => MapList::Mapping(m.duplicate()),
            MapList::List(items) => {
                let n = items.len();
                let mut out: Vec<String> = Vec::new();
                let mut i: usize = 0;
                while i < n
                    invariant
                        i <= n,
                        n == items@.len(),
                        out@ =~= items@.take(i as int),
                    decreases n - i,
                {
                    out.push(items[i].clone());
                    proof {
                        assert(out@ =~= items@.take(i + 1));
                    }
                    i = i + 1;
                }
                proof {
                    assert(out@ =~= items@);
                }
                MapList::List(out)
            },
        }
    }

    /// Splits one `KEY=VALUE` line before its first `=`.
    fn split_value(value: &String) -> (r: (String, String))
        ensures
            r.0@ == split_pair(value@).0,
            r.1@ == split_pair(value@).1,
    {
        let s = value.as_str();
        let n = s.unicode_len();
        let mut i: usize = 0;
        while i < n
            invariant_except_break
                i <= n,
                n == s@.len(),
                forall|j: int| 0 <= j < i ==> s@[j] != '=',
            ensures
                i <= n,
                n == s@.len(),
                forall|j: int| 0 <= j < i ==> s@[j] != '=',
                i == n || s@[i as int] == '=',
            decreases n - i,
        {
            let c = s.get_char(i);
            let is_eq: bool = (c as u32) == ('=' as u32);
            proof {
                if (c as u32) == ('=' as u32) {
                    crate::text::lemma_char_cast_injective(c, '=');
                }
            }
            if is_eq {
                break;
            }
            i = i + 1;
        }
        proof {
            lemma_split_pair_at(s@, i as int);
        }
        let key = s.substring_char(0, i).to_owned();
        let val = s.substring_char(i, n).to_owned();
        proof {
            assert(key@ =~= split_pair(s@).0);
            assert(val@ =~= split_pair(s@).1);
        }
        (key, val)
    }
}

/// When nothing before position `i` is an `=`, and `i` is the end or an `=`,
/// the split falls exactly at `i`.
proof fn lemma_split_pair_at(s: Seq<char>, i: int)
    requires
        0 <= i <= s.len(),
        forall|j: int| 0 <= j < i ==> s[j] != '=',
        i == s.len() || s[i] == '=',
    ensures
        split_pair(s).0 == s.take(i),
        split_pair(s).1 == s.skip(i),
    decreases s.len(),
{
    if s.len() == 0 {
        assert(split_pair(s).0 =~= s.take(i));
        assert(split_pair(s).1 =~= s.skip(i));
    } else if i == 0 {
        assert(s.take(0) =~= Seq::<char>::empty());
        assert(s.skip(0) =~= s);
    } else {
        assert(forall|j: int| 0 <= j < i - 1 ==> #[trigger] s.skip(1)[j] == s[j + 1]);
        lemma_split_pair_at(s.skip(1), i - 1);
        assert(s.skip(1).take(i - 1) =~= s.take(i).skip(1));
        assert(seq![s[0]] + s.take(i).skip(1) =~= s.take(i));
        assert(s.skip(1).skip(i - 1) =~= s.skip(i));
    }
}

impl Default for MapList {
    /// An empty list of lines.
    fn default() -> (r: MapList)
        ensures
            r matches MapList::List(items) && items@.len() == 0,
            r.wf(),
            r.map_view() == Map::<Seq<char>, Seq<char>>::empty(),
    {
        MapList::List(Vec::new())
    }
}

impl Service {
    /// Any mappings in the build stanza are in canonical order.
    pub open spec fn wf(&self) -> bool {
        match self.build {
            Some(Build::Extended { args, labels, .. }) => args.wf() && labels.wf(),
            _ => true,
        }
    }
}

impl DockerComposeFile {
    /// Every service is well-formed.
    pub open spec fn wf(&self) -> bool {
        forall|i: int| 0 <= i < self.services@.len() ==> (#[trigger] self.services@[i]).1.wf()
    }
}

/// How many replicas a service asks for; one when it does not say.
pub open spec fn replicas_of(svc: Service) -> nat {
    match svc.replicas {
        Some(n) => n as nat,
        None => 1,
    }
}

/// The image a service runs: the one it names, or `{project}_{service}`.
pub open spec fn image_name_of(project: Seq<char>, sname: Seq<char>, svc: Service) -> Seq<char> {
    match svc.image {
        Some(img) => img@,
        None => project + seq!['_'] + sname,
    }
}

/// The `(name, service, image)` rows of one service's replicas.
pub open spec fn service_rows(project: Seq<char>, sname: Seq<char>, svc: Service) -> Seq<
    (Seq<char>, Seq<char>, Seq<char>),
> {
    Seq::new(
        replicas_of(svc),
        |i: int| (replica_name_seq(project, sname, i as nat), sname, image_name_of(
            project,
            sname,
            svc,
        )),
    )
}

/// The `(name, service, image)` rows of every service, in order.
pub open spec fn all_rows(project: Seq<char>, svcs: Seq<(String, Service)>) -> Seq<
    (Seq<char>, Seq<char>, Seq<char>),
>
    decreases svcs.len(),
{
    if svcs.len() == 0 {
        Seq::empty()
    } else {
        all_rows(project, svcs.drop_last()) + service_rows(
            project,
            svcs.last().0@,
            svcs.last().1,
        )
    }
}

/// Container specifications that stand for the given rows: same names,
/// services and images, with empty user labels.
pub open spec fn specs_match_rows(
    cs: Seq<ContainerSpec>,
    rows: Seq<(Seq<char>, Seq<char>, Seq<char>)>,
) -> bool {
    &&& cs.len() == rows.len()
    &&& forall|k: int|
        0 <= k < cs.len() ==> {
            &&& (#[trigger] cs[k]).name@ == rows[k].0
            &&& cs[k].service_name@ == rows[k].1
            &&& cs[k].image_name@ == rows[k].2
            &&& cs[k].labels.entry_seq().len() == 0
        }
}

/// The view of an optional string.
pub open spec fn opt_view(o: Option<String>) -> Option<Seq<char>> {
    match o {
        Some(s) => Some(s@),
        None => None,
    }
}

/// What one service contributes to the images to build: nothing without a
/// build stanza; otherwise its context, dockerfile, target and arguments,
/// with `Dockerfile` standing in where the stanza does not name one.
pub open spec fn build_row_of(project: Seq<char>, sname: Seq<char>, svc: Service) -> Seq<
    (Seq<char>, Seq<char>, Seq<char>, Option<Seq<char>>, Map<Seq<char>, Seq<char>>),
> {
    match svc.build {
        None => Seq::empty(),
        Some(Build::Short(context)) => seq![
            (image_name_of(project, sname, svc), context@, "Dockerfile"@, None, Map::empty()),
        ],
        Some(
            Build::Extended { context, dockerfile, args, cache_from, labels, shm_size, target },
        ) => seq![
            (
                image_name_of(project, sname, svc),
                context@,
                match dockerfile {
                    Some(d) => d@,
                    None => "Dockerfile"@,
                },
                opt_view(target),
                args.map_view(),
            ),
        ],
    }
}

/// The build rows of every service, in order.
pub open spec fn all_build_rows(project: Seq<char>, svcs: Seq<(String, Service)>) -> Seq<
    (Seq<char>, Seq<char>, Seq<char>, Option<Seq<char>>, Map<Seq<char>, Seq<char>>),
>
    decreases svcs.len(),
{
    if svcs.len() == 0 {
        Seq::empty()
    } else {
        all_build_rows(project, svcs.drop_last()) + build_row_of(
            project,
            svcs.last().0@,
            svcs.last().1,
        )
    }
}

/// Build specifications that stand for the given rows.
pub open spec fn builds_match_rows(
    bs: Seq<ImageBuildSpec>,
    rows: Seq<(Seq<char>, Seq<char>, Seq<char>, Option<Seq<char>>, Map<Seq<char>, Seq<char>>)>,
) -> bool {
    &&& bs.len() == rows.len()
    &&& forall|k: int|
        0 <= k < bs.len() ==> {
            &&& (#[trigger] bs[k]).name@ == rows[k].0
            &&& bs[k].context@ == rows[k].1
            &&& bs[k].dockerfile@ == rows[k].2
            &&& opt_view(bs[k].target) == rows[k].3
            &&& bs[k].build_args@ == rows[k].4
            &&& bs[k].build_args.wf()
            &&& bs[k].labels.entry_seq().len() == 0
        }
}

/// What one service contributes to the images to pull: its image name, when
/// it has no build stanza.
pub open spec fn pull_row_of(project: Seq<char>, sname: Seq<char>, svc: Service) -> Seq<Seq<char>> {
    match svc.build {
        None => seq![image_name_of(project, sname, svc)],
        Some(_) => Seq::empty(),
    }
}

/// The pull rows of every service, in order.
pub open spec fn all_pull_rows(project: Seq<char>, svcs: Seq<(String, Service)>) -> Seq<Seq<char>>
    decreases svcs.len(),
{
    if svcs.len() == 0 {
        Seq::empty()
    } else {
        all_pull_rows(project, svcs.drop_last()) + pull_row_of(
            project,
            svcs.last().0@,
            svcs.last().1,
        )
    }
}

/// Pull specifications that stand for the given rows.
pub open spec fn pulls_match_rows(ps: Seq<ImagePullSpec>, rows: Seq<Seq<char>>) -> bool {
    &&& ps.len() == rows.len()
    &&& forall|k: int| 0 <= k < ps.len() ==> (#[trigger] ps[k]).name@ == rows[k]
}

/// Appending a specification that stands for a row keeps the match.
proof fn lemma_specs_match_push(
    cs: Seq<ContainerSpec>,
    rows: Seq<(Seq<char>, Seq<char>, Seq<char>)>,
    c: ContainerSpec,
    row: (Seq<char>, Seq<char>, Seq<char>),
)
    requires
        specs_match_rows(cs, rows),
        c.name@ == row.0,
        c.service_name@ == row.1,
        c.image_name@ == row.2,
        c.labels.entry_seq().len() == 0,
    ensures
        specs_match_rows(cs.push(c), rows.push(row)),
{
    assert forall|k: int| 0 <= k < cs.push(c).len() implies {
        &&& (#[trigger] cs.push(c)[k]).name@ == rows.push(row)[k].0
        &&& cs.push(c)[k].service_name@ == rows.push(row)[k].1
        &&& cs.push(c)[k].image_name@ == rows.push(row)[k].2
        &&& cs.push(c)[k].labels.entry_seq().len() == 0
    } by {
        if k < cs.len() {
            assert(cs.push(c)[k] == cs[k]);
            assert(rows.push(row)[k] == rows[k]);
        } else {
            assert(cs.push(c)[k] == c);
            assert(rows.push(row)[k] == row);
        }
    }
}

/// Appending a build specification that stands for a row keeps the match.
proof fn lemma_builds_match_push(
    bs: Seq<ImageBuildSpec>,
    rows: Seq<(Seq<char>, Seq<char>, Seq<char>, Option<Seq<char>>, Map<Seq<char>, Seq<char>>)>,
    b: ImageBuildSpec,
    row: (Seq<char>, Seq<char>, Seq<char>, Option<Seq<char>>, Map<Seq<char>, Seq<char>>),
)
    requires
        builds_match_rows(bs, rows),
        b.name@ == row.0,
        b.context@ == row.1,
        b.dockerfile@ == row.2,
        opt_view(b.target) == row.3,
        b.build_args@ == row.4,
        b.build_args.wf(),
        b.labels.entry_seq().len() == 0,
    ensures
        builds_match_rows(bs.push(b), rows.push(row)),
{
    assert forall|k: int| 0 <= k < bs.push(b).len() implies {
        &&& (#[trigger] bs.push(b)[k]).name@ == rows.push(row)[k].0
        &&& bs.push(b)[k].context@ == rows.push(row)[k].1
        &&& bs.push(b)[k].dockerfile@ == rows.push(row)[k].2
        &&& opt_view(bs.push(b)[k].target) == rows.push(row)[k].3
        &&& bs.push(b)[k].build_args@ == rows.push(row)[k].4
        &&& bs.push(b)[k].build_args.wf()
        &&& bs.push(b)[k].labels.entry_seq().len() == 0
    } by {
        if k < bs.len() {
            assert(bs.push(b)[k] == bs[k]);
            assert(rows.push(row)[k] == rows[k]);
        } else {
            assert(bs.push(b)[k] == b);
            assert(rows.push(row)[k] == row);
        }
    }
}

/// Appending a pull specification that stands for a row keeps the match.
proof fn lemma_pulls_match_push(
    ps: Seq<ImagePullSpec>,
    rows: Seq<Seq<char>>,
    p: ImagePullSpec,
    row: Seq<char>,
)
    requires
        pulls_match_rows(ps, rows),
        p.name@ == row,
    ensures
        pulls_match_rows(ps.push(p), rows.push(row)),
{
    assert forall|k: int| 0 <= k < ps.push(p).len() implies (#[trigger] ps.push(p)[k]).name@
        == rows.push(row)[k] by {
        if k < ps.len() {
            assert(ps.push(p)[k] == ps[k]);
            assert(rows.push(row)[k] == rows[k]);
        } else {
            assert(ps.push(p)[k] == p);
            assert(rows.push(row)[k] == row);
        }
    }
}

/// The frontend for compose documents.
pub struct DockerComposeFrontend;

impl DockerComposeFrontend {
    /// A fresh frontend.
    pub fn new() -> DockerComposeFrontend {
        DockerComposeFrontend
    }
}

impl ComposerFrontend for DockerComposeFrontend {
    fn composition(&mut self, project_name: &str, file: &DockerComposeFile) -> (r: Composition) {
        let mut composition = Composition::new();
        let nsvc = file.services.len();
        let mut si: usize = 0;
        while si < nsvc
            invariant
                si <= nsvc,
                nsvc == file.services@.len(),
                file.wf(),
                specs_match_rows(
                    composition.containers@,
                    all_rows(project_name@, file.services@.take(si as int)),
                ),
                builds_match_rows(
                    composition.build_images@,
                    all_build_rows(project_name@, file.services@.take(si as int)),
                ),
                pulls_match_rows(
                    composition.pull_images@,
                    all_pull_rows(project_name@, file.services@.take(si as int)),
                ),
            decreases nsvc - si,
        {
            proof {
                reveal_strlit("_");
            }
            let ghost svcs = file.services@;
            let sname: &String = &file.services[si].0;
            let svc: &Service = &file.services[si].1;
            let image_name_s: String = match &svc.image {
                Some(img) => {
                    let s = img.clone();
                    proof {
                        assert(s@ == image_name_of(project_name@, sname@, *svc));
                    }
                    s
                },
                None => {
                    let mut s = project_name.to_owned();
                    s.append("_");
                    s.append(sname.as_str());
                    proof {
                        assert(s@ =~= image_name_of(project_name@, sname@, *svc));
                    }
                    s
                },
            };
            let ghost base_brows = all_build_rows(project_name@, svcs.take(si as int));
            let ghost base_prows = all_pull_rows(project_name@, svcs.take(si as int));
            match &svc.build {
                None => {
                    let p = ImagePullSpec { name: ImageName(image_name_s.clone()) };
                    let ghost gp = p;
                    composition.pull_images.push(p);
                    proof {
                        lemma_pulls_match_push(
                            composition.pull_images@.drop_last(),
                            base_prows,
                            gp,
                            image_name_of(project_name@, sname@, *svc),
                        );
                        assert(composition.pull_images@.drop_last().push(gp)
                            =~= composition.pull_images@);
                        assert(base_prows.push(image_name_of(project_name@, sname@, *svc))
                            =~= base_prows + pull_row_of(project_name@, sname@, *svc));
                    }
                },
                Some(Build::Short(context)) => {
                    let b = ImageBuildSpec {
                        name: ImageName(image_name_s.clone()),
                        context: context.clone(),
                        dockerfile: "Dockerfile".to_owned(),
                        target: None,
                        build_args: LabelMap::new(),
                        labels: LabelMap::new(),
                    };
                    let ghost gb = b;
                    let ghost grow = build_row_of(project_name@, sname@, *svc)[0];
                    composition.build_images.push(b);
                    proof {
                        lemma_builds_match_push(
                            composition.build_images@.drop_last(),
                            base_brows,
                            gb,
                            grow,
                        );
                        assert(composition.build_images@.drop_last().push(gb)
                            =~= composition.build_images@);
                        assert(base_brows.push(grow) =~= base_brows + build_row_of(
                            project_name@,
                            sname@,
                            *svc,
                        ));
                    }
                },
                Some(Build::Extended { context, dockerfile, args, target, .. }) => {
                    let dockerfile_s: String = match dockerfile {
                        Some(d) => d.clone(),
                        None => "Dockerfile".to_owned(),
                    };
                    let target_s: Option<String> = match target {
                        Some(t) => Some(t.clone()),
                        None => None,
                    };
                    proof {
                        assert(svcs[si as int].1.wf());
                    }
                    let build_args = args.duplicate().to_map();
                    let b = ImageBuildSpec {
                        name: ImageName(image_name_s.clone()),
                        context: context.clone(),
                        dockerfile: dockerfile_s,
                        target: target_s,
                        build_args,
                        labels: LabelMap::new(),
                    };
                    let ghost gb = b;
                    let ghost grow = build_row_of(project_name@, sname@, *svc)[0];
                    composition.build_images.push(b);
                    proof {
                        lemma_builds_match_push(
                            composition.build_images@.drop_last(),
                            base_brows,
                            gb,
                            grow,
                        );
                        assert(composition.build_images@.drop_last().push(gb)
                            =~= composition.build_images@);
                        assert(base_brows.push(grow) =~= base_brows + build_row_of(
                            project_name@,
                            sname@,
                            *svc,
                        ));
                    }
                },
            }
            let replicas: u64 = match svc.replicas {
                Some(n) => n,
                None => 1,
            };
            let ghost base_rows = all_rows(project_name@, svcs.take(si as int));
            let ghost srows = service_rows(project_name@, sname@, *svc);
            let mut idx: u64 = 0;
            while idx < replicas
                invariant
                    idx <= replicas,
                    si < nsvc,
                    nsvc == file.services@.len(),
                    svcs == file.services@,
                    sname@ == svcs[si as int].0@,
                    *svc == svcs[si as int].1,
                    replicas == replicas_of(*svc),
                    image_name_s@ == image_name_of(project_name@, sname@, *svc),
                    srows == service_rows(project_name@, sname@, *svc),
                    base_rows == all_rows(project_name@, svcs.take(si as int)),
                    specs_match_rows(composition.containers@, base_rows + srows.take(idx as int)),
                    builds_match_rows(
                        composition.build_images@,
                        all_build_rows(project_name@, svcs.take(si as int)) + build_row_of(
                            project_name@,
                            sname@,
                            *svc,
                        ),
                    ),
                    pulls_match_rows(
                        composition.pull_images@,
                        all_pull_rows(project_name@, svcs.take(si as int)) + pull_row_of(
                            project_name@,
                            sname@,
                            *svc,
                        ),
                    ),
                decreases replicas - idx,
            {
                let name = replica_name(project_name, sname.as_str(), idx);
                let c = ContainerSpec {
                    name: ContainerName(name),
                    service_name: sname.clone(),
                    image_name: ImageName(image_name_s.clone()),
                    labels: LabelMap::new(),
                };
                let ghost gc = c;
                composition.containers.push(c);
                proof {
                    lemma_specs_match_push(
                        composition.containers@.drop_last(),
                        base_rows + srows.take(idx as int),
                        gc,
                        srows[idx as int],
                    );
                    assert(composition.containers@.drop_last().push(gc)
                        =~= composition.containers@);
                    assert((base_rows + srows.take(idx as int)).push(srows[idx as int])
                        =~= base_rows + srows.take(idx + 1));
                }
                idx = idx + 1;
            }
            proof {
                assert(srows.take(replicas as int) =~= srows);
                assert(svcs.take(si + 1).drop_last() =~= svcs.take(si as int));
                assert(svcs.take(si + 1).last() == svcs[si as int]);
                assert(all_rows(project_name@, svcs.take(si + 1)) == base_rows + srows);
                assert(all_build_rows(project_name@, svcs.take(si + 1)) == all_build_rows(
                    project_name@,
                    svcs.take(si as int),
                ) + build_row_of(project_name@, sname@, *svc));
                assert(all_pull_rows(project_name@, svcs.take(si + 1)) == all_pull_rows(
                    project_name@,
                    svcs.take(si as int),
                ) + pull_row_of(project_name@, sname@, *svc));
            }
            si = si + 1;
        }
        proof {
            assert(file.services@.take(nsvc as int) =~= file.services@);
        }
        composition
    }
}

} // verus!
