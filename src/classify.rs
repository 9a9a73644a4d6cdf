//! Routing of workspace files to optimizer classes by their lowercased
//! extension.
use vstd::prelude::*;
use crate::text::{ascii_lower, ascii_lower_seq, chars_of, to_ascii_lower};

verus! {

broadcast use vstd::seq_lib::group_seq_properties;

/// The optimizer classes a file can be routed to.
#[derive(Clone, Copy, Debug, PartialEq, Eq, Structural)]
pub enum OptimizerClass {
    /// `xml`, `opf`, `svg`: the generic markup minifier.
    Markup,
    /// `html`, `htm`, `xhtml`: the HTML-aware minifier.
    Html,
    /// `css`: the stylesheet minifier.
    Stylesheet,
    /// `jpg`, `jpeg`: the JPEG re-encoder.
    Jpeg,
    /// `png`: the PNG quantizer.
    Png,
}

/// The part of `p` after its last `/`.
pub open spec fn file_name(p: Seq<char>) -> Seq<char>
    decreases p.len(),
{
    if p.len() == 0 {
        p
    } else if p.last() == '/' {
        Seq::empty()
    } else {
        file_name(p.drop_last()).push(p.last())
    }
}

/// Index of the last `.` in `n`.
pub open spec fn last_dot(n: Seq<char>) -> Option<int>
    decreases n.len(),
{
    if n.len() == 0 {
        None
    } else if n.last() == '.' {
        Some(n.len() - 1)
    } else {
        last_dot(n.drop_last())
    }
}

/// The extension of a path: what follows the last `.` of its file name,
/// where that dot is not the name's first character.
pub open spec fn extension(p: Seq<char>) -> Option<Seq<char>> {
    let n = file_name(p);
    match last_dot(n) {
        Some(k) => if k == 0 {
            None
        } else {
            Some(n.subrange(k + 1, n.len() as int))
        },
        None => None,
    }
}

/// The class for a lowercased extension.
pub open spec fn class_of_ext(e: Seq<char>) -> Option<OptimizerClass> {
    if e == seq!['x', 'm', 'l'] || e == seq!['o', 'p', 'f'] || e == seq!['s', 'v', 'g'] {
        Some(OptimizerClass::Markup)
    } else if e == seq!['h', 't', 'm', 'l'] || e == seq!['h', 't', 'm'] || e == seq![
        'x',
        'h',
        't',
        'm',
        'l',
    ] {
        Some(OptimizerClass::Html)
    } else if e == seq!['c', 's', 's'] {
        Some(OptimizerClass::Stylesheet)
    } else if e == seq!['j', 'p', 'g'] || e == seq!['j', 'p', 'e', 'g'] {
        Some(OptimizerClass::Jpeg)
    } else if e == seq!['p', 'n', 'g'] {
        Some(OptimizerClass::Png)
    } else {
        None
    }
}

/// The class of the file at `p`, or `None` when it is left untouched.
pub open spec fn class_of(p: Seq<char>) -> Option<OptimizerClass> {
    match extension(p) {
        Some(e) => class_of_ext(ascii_lower_seq(e)),
        None => None,
    }
}

fn eq_word(e: &Vec<char>, w: &[char]) -> (r: bool)
    ensures
        r == (e@ == w@),
{
    if e.len() != w.len() {
        return false;
    }
    let mut i: usize = 0;
    while i < e.len()
        invariant
            e.len() == w@.len(),
            i <= e.len(),
            forall|k: int| 0 <= k < i ==> e@[k] == w@[k],
        decreases e.len() - i,
    {
        if e[i] != w[i] {
            return false;
        }
        i = i + 1;
    }
    assert(e@ =~= w@);
    true
}

fn class_of_lower_ext(e: &Vec<char>) -> (r: Option<OptimizerClass>)
    ensures
        r == class_of_ext(e@),
{
    let xml = ['x', 'm', 'l'];
    let opf = ['o', 'p', 'f'];
    let svg = ['s', 'v', 'g'];
    let html = ['h', 't', 'm', 'l'];
    let htm = ['h', 't', 'm'];
    let xhtml = ['x', 'h', 't', 'm', 'l'];
    let css = ['c', 's', 's'];
    let jpg = ['j', 'p', 'g'];
    let jpeg = ['j', 'p', 'e', 'g'];
    let png = ['p', 'n', 'g'];
    assert(xml@ =~= seq!['x', 'm', 'l']);
    assert(opf@ =~= seq!['o', 'p', 'f']);
    assert(svg@ =~= seq!['s', 'v', 'g']);
    assert(html@ =~= seq!['h', 't', 'm', 'l']);
    assert(htm@ =~= seq!['h', 't', 'm']);
    assert(xhtml@ =~= seq!['x', 'h', 't', 'm', 'l']);
    assert(css@ =~= seq!['c', 's', 's']);
    assert(jpg@ =~= seq!['j', 'p', 'g']);
    assert(jpeg@ =~= seq!['j', 'p', 'e', 'g']);
    assert(png@ =~= seq!['p', 'n', 'g']);
    if eq_word(e, &xml) || eq_word(e, &opf) || eq_word(e, &svg) {
        Some(OptimizerClass::Markup)
    } else if eq_word(e, &html) || eq_word(e, &htm) || eq_word(e, &xhtml) {
        Some(OptimizerClass::Html)
    } else if eq_word(e, &css) {
        Some(OptimizerClass::Stylesheet)
    } else if eq_word(e, &jpg) || eq_word(e, &jpeg) {
        Some(OptimizerClass::Jpeg)
    } else if eq_word(e, &png) {
        Some(OptimizerClass::Png)
    } else {
        None
    }
}

/// The class of the file at `path`, from its extension compared without
/// regard to ASCII case; `None` for anything else, a missing extension
/// included.
pub fn class_of_path(path: &str) -> (r: Option<OptimizerClass>)
    ensures
        r == class_of(path@),
{
    let p = chars_of(path);
    // start of the file name
    let mut start: usize = p.len();
    while start > 0 && p[start - 1] != '/'
        invariant
            start <= p.len(),
            forall|k: int| start <= k < p.len() ==> p@[k] != '/',
        decreases start,
    {
        start = start - 1;
    }
    proof {
        lemma_file_name(p@, start as int);
    }
    // last dot of the file name
    let mut dot: usize = p.len();
    while dot > start && p[dot - 1] != '.'
        invariant
            start <= dot <= p.len(),
            forall|k: int| dot <= k < p.len() ==> p@[k] != '.',
        decreases dot,
    {
        dot = dot - 1;
    }
    let ghost n = p@.subrange(start as int, p.len() as int);
    proof {
        lemma_last_dot(n, dot - start);
    }
    if dot == start || dot - 1 == start {
        return None;
    }
    let mut e: Vec<char> = Vec::new();
    let mut i: usize = dot;
    while i < p.len()
        invariant
            dot <= i <= p.len(),
            e@ == ascii_lower_seq(p@.subrange(dot as int, i as int)),
        decreases p.len() - i,
    {
        e.push(to_ascii_lower(p[i]));
        i = i + 1;
        assert(e@ =~= ascii_lower_seq(p@.subrange(dot as int, i as int)));
    }
    assert(n.subrange(dot - start, n.len() as int) =~= p@.subrange(dot as int, p.len() as int));
    class_of_lower_ext(&e)
}

/// The views of a sequence of strings.
pub open spec fn views(v: Seq<String>) -> Seq<Seq<char>> {
    v.map_values(|s: String| s@)
}

/// The paths among `files` that go to `class`, in their order.
pub open spec fn bucket_of(files: Seq<Seq<char>>, class: OptimizerClass) -> Seq<Seq<char>> {
    files.filter(|p: Seq<char>| class_of(p) == Some(class))
}

/// The workspace's files, one ordered bucket per optimizer class.
pub struct Buckets {
    pub markup: Vec<String>,
    pub html: Vec<String>,
    pub stylesheet: Vec<String>,
    pub jpeg: Vec<String>,
    pub png: Vec<String>,
}

impl Buckets {
    pub open spec fn bucket(&self, class: OptimizerClass) -> Seq<Seq<char>> {
        match class {
            OptimizerClass::Markup => views(self.markup@),
            OptimizerClass::Html => views(self.html@),
            OptimizerClass::Stylesheet => views(self.stylesheet@),
            OptimizerClass::Jpeg => views(self.jpeg@),
            OptimizerClass::Png => views(self.png@),
        }
    }

    /// The paths routed to `class`.
    pub fn paths(&self, class: OptimizerClass) -> (r: &Vec<String>)
        ensures
            views(r@) == self.bucket(class),
    {
        match class {
            OptimizerClass::Markup => &self.markup,
            OptimizerClass::Html => &self.html,
            OptimizerClass::Stylesheet => &self.stylesheet,
            OptimizerClass::Jpeg => &self.jpeg,
            OptimizerClass::Png => &self.png,
        }
    }
}

/// The classes in the order their workers are started.
pub open spec fn all_classes() -> Seq<OptimizerClass> {
    seq![
        OptimizerClass::Markup,
        OptimizerClass::Html,
        OptimizerClass::Stylesheet,
        OptimizerClass::Jpeg,
        OptimizerClass::Png,
    ]
}

impl Buckets {
    /// The classes that get a worker: those whose bucket is not empty, in
    /// the order of `all_classes`. An empty bucket is no job, and no error.
    pub fn jobs(&self) -> (r: Vec<OptimizerClass>)
        ensures
            r@ == all_classes().filter(|c: OptimizerClass| self.bucket(c).len() > 0),
    {
        let ghost pred = |c: OptimizerClass| self.bucket(c).len() > 0;
        let mut r: Vec<OptimizerClass> = Vec::new();
        let classes = [
            OptimizerClass::Markup,
            OptimizerClass::Html,
            OptimizerClass::Stylesheet,
            OptimizerClass::Jpeg,
            OptimizerClass::Png,
        ];
        assert(classes@ =~= all_classes());
        let mut i: usize = 0;
        assert(all_classes().subrange(0, 0) =~= Seq::<OptimizerClass>::empty());
        while i < 5
            invariant
                i <= 5,
                classes@ == all_classes(),
                pred == (|c: OptimizerClass| self.bucket(c).len() > 0),
                r@ == all_classes().subrange(0, i as int).filter(pred),
            decreases 5 - i,
        {
            let c = classes[i];
            let ghost pre = all_classes().subrange(0, i as int);
            assert(all_classes().subrange(0, i + 1) =~= pre.push(c));
            proof {
                pre.lemma_filter_push(c, pred);
            }
            if self.paths(c).len() > 0 {
                r.push(c);
            }
            i = i + 1;
        }
        assert(all_classes().subrange(0, 5) =~= all_classes());
        r
    }
}

fn push_path(v: &mut Vec<String>, p: String)
    ensures
        views(final(v)@) == views(old(v)@).push(p@),
{
    v.push(p);
    assert(views(v@) =~= views(old(v)@).push(p@));
}

/// Routes each of the regular files at `files` to the bucket of its class,
/// keeping their order; files of no class are left out.
pub fn classify(files: &Vec<String>) -> (r: Buckets)
    ensures
        forall|c: OptimizerClass| #[trigger] r.bucket(c) == bucket_of(views(files@), c),
{
    let mut r = Buckets {
        markup: Vec::new(),
        html: Vec::new(),
        stylesheet: Vec::new(),
        jpeg: Vec::new(),
        png: Vec::new(),
    };
    let mut i: usize = 0;
    assert(views(files@).subrange(0, 0) =~= Seq::<Seq<char>>::empty());
    assert forall|c: OptimizerClass| #[trigger] r.bucket(c) == bucket_of(
        views(files@).subrange(0, 0),
        c,
    ) by {
        assert(r.bucket(c) =~= Seq::<Seq<char>>::empty());
    }
    while i < files.len()
        invariant
            i <= files.len(),
            forall|c: OptimizerClass| #[trigger] r.bucket(c) == bucket_of(
                views(files@).subrange(0, i as int),
                c,
            ),
        decreases files.len() - i,
    {
        let p = files[i].clone();
        let ghost pv = p@;
        let ghost pre = views(files@).subrange(0, i as int);
        assert(views(files@).subrange(0, i + 1) =~= pre.push(pv));
        let ghost before = |c: OptimizerClass| r.bucket(c);
        match class_of_path(p.as_str()) {
            Some(OptimizerClass::Markup) => push_path(&mut r.markup, p),
            Some(OptimizerClass::Html) => push_path(&mut r.html, p),
            Some(OptimizerClass::Stylesheet) => push_path(&mut r.stylesheet, p),
            Some(OptimizerClass::Jpeg) => push_path(&mut r.jpeg, p),
            Some(OptimizerClass::Png) => push_path(&mut r.png, p),
            None => {},
        }
        proof {
            assert forall|c: OptimizerClass| #[trigger] r.bucket(c) == bucket_of(pre.push(pv), c) by {
                pre.lemma_filter_push(pv, |q: Seq<char>| class_of(q) == Some(c));
                assert(before(c) == bucket_of(pre, c));
            }
        }
        i = i + 1;
    }
    assert(views(files@).subrange(0, files.len() as int) =~= views(files@));
    r
}

proof fn lemma_file_name(p: Seq<char>, start: int)
    requires
        0 <= start <= p.len(),
        start == 0 || p[start - 1] == '/',
        forall|k: int| start <= k < p.len() ==> p[k] != '/',
    ensures
        file_name(p) == p.subrange(start, p.len() as int),
    decreases p.len(),
{
    if p.len() > start {
        lemma_file_name(p.drop_last(), start);
        assert(p.drop_last().subrange(start, p.len() - 1).push(p.last()) =~= p.subrange(
            start,
            p.len() as int,
        ));
    } else if p.len() > 0 {
        assert(p.subrange(start, p.len() as int) =~= Seq::<char>::empty());
    }
}

proof fn lemma_last_dot(n: Seq<char>, d: int)
    requires
        0 <= d <= n.len(),
        d == 0 || n[d - 1] == '.',
        forall|k: int| d <= k < n.len() ==> n[k] != '.',
    ensures
        last_dot(n) == (if d == 0 {
            None::<int>
        } else {
            Some(d - 1)
        }),
    decreases n.len(),
{
    if n.len() > d {
        lemma_last_dot(n.drop_last(), d);
    } else if n.len() > 0 && d == 0 {
        lemma_last_dot(n.drop_last(), d);
    }
}

} // verus!
