//! The decisions of the command-line tools that are not input or output:
//! which directory entries are register files and in what order they are
//! read, and how several dictionaries or label registers become one.
use vstd::prelude::*;

use crate::dict::labels::{union_prefer_left, LabelsRegister};
use crate::dict::meta_dictionary::{empty_model, model_add_all, DictModel, MetaDictionary};
use crate::regxml::order::{lemma_sorted_positions, sort_positions, sorted_positions};
use crate::text::{append_chars, chars_of, string_of};

verus! {

/// Whether a file name has the extension `xml`: it ends in `.xml` and has
/// at least one character before that dot.
pub open spec fn has_xml_extension(name: Seq<char>) -> bool {
    name.len() >= 5 && name.skip(name.len() - 4) == ".xml"@
}

/// Whether the file name `name` has the extension `xml`.
pub fn is_xml_file_name(name: &str) -> (r: bool)
    ensures
        r == has_xml_extension(name@),
{
    let cs = chars_of(name);
    let n = cs.len();
    if n < 5 {
        return false;
    }
    let r = cs[n - 4] == '.' && cs[n - 3] == 'x' && cs[n - 2] == 'm' && cs[n - 1] == 'l';
    proof {
        reveal_strlit(".xml");
        let tail = name@.skip(n - 4);
        if r {
            assert(tail =~= ".xml"@);
        }
        if tail == ".xml"@ {
            assert(tail[0] == '.' && tail[1] == 'x' && tail[2] == 'm' && tail[3] == 'l');
        }
    }
    r
}

/// The positions of the names with extension `xml`, in increasing order.
pub open spec fn xml_positions(names: Seq<Seq<char>>, n: int) -> Seq<int>
    decreases n,
{
    if n <= 0 {
        Seq::empty()
    } else if has_xml_extension(names[n - 1]) {
        xml_positions(names, n - 1).push(n - 1)
    } else {
        xml_positions(names, n - 1)
    }
}

proof fn lemma_xml_positions(names: Seq<Seq<char>>, n: int)
    requires
        0 <= n <= names.len(),
    ensures
        forall|i: int| 0 <= i < xml_positions(names, n).len() ==> 0 <= #[trigger] xml_positions(names, n)[i] < n,
        xml_positions(names, n).len() <= n,
    decreases n,
{
    if n > 0 {
        lemma_xml_positions(names, n - 1);
    }
}

/// The directory entries, given by name, that are register files, in the
/// order in which they are read: those with extension `xml`, sorted by name
/// (entries with equal names keep their order).
pub open spec fn register_file_order(names: Seq<Seq<char>>) -> Seq<int> {
    let sel = xml_positions(names, names.len() as int);
    let keys = sel.map_values(|i: int| names[i]);
    sorted_positions(keys, sel.len() as int).map_values(|p: int| sel[p])
}

/// The texts of some strings.
pub open spec fn string_views(v: Seq<String>) -> Seq<Seq<char>> {
    v.map_values(|s: String| s@)
}

/// Positions into `names` of the register files among directory entries,
/// in reading order (see [`register_file_order`]).
pub fn register_files(names: &Vec<String>) -> (r: Vec<usize>)
    ensures
        r@.len() == register_file_order(string_views(names@)).len(),
        forall|i: int| 0 <= i < r@.len() ==> r@[i] as int == #[trigger] register_file_order(string_views(names@))[i],
{
    let ghost nv = string_views(names@);
    let mut sel: Vec<usize> = Vec::new();
    let mut keys: Vec<String> = Vec::new();
    let mut i: usize = 0;
    while i < names.len()
        invariant
            i <= names@.len(),
            nv == string_views(names@),
            sel@.len() == keys@.len(),
            sel@.len() == xml_positions(nv, i as int).len(),
            forall|j: int| 0 <= j < sel@.len() ==> #[trigger] sel@[j] as int == xml_positions(nv, i as int)[j]
                && keys@[j]@ == nv[sel@[j] as int],
        decreases names.len() - i,
    {
        proof {
            lemma_xml_positions(nv, i as int);
        }
        if is_xml_file_name(names[i].as_str()) {
            sel.push(i);
            keys.push(names[i].clone());
        }
        i = i + 1;
    }
    let order = sort_positions(&keys);
    let ghost sv = xml_positions(nv, nv.len() as int);
    let ghost kv = sv.map_values(|j: int| nv[j]);
    proof {
        lemma_xml_positions(nv, nv.len() as int);
        assert forall|j: int| 0 <= j < kv.len() implies #[trigger] kv[j] == keys@[j]@ by {
            assert(sel@[j] as int == sv[j]);
        }
        assert(keys@.map_values(|s: String| s@) =~= kv);
    }
    let mut out: Vec<usize> = Vec::new();
    let mut k: usize = 0;
    while k < order.len()
        invariant
            k <= order@.len(),
            order@.len() == keys@.len(),
            sel@.len() == keys@.len(),
            sv == xml_positions(nv, nv.len() as int),
            sel@.len() == sv.len(),
            forall|j: int| 0 <= j < sel@.len() ==> #[trigger] sel@[j] as int == sv[j],
            forall|j: int| #![trigger order@[j]] 0 <= j < order@.len() ==> order@[j] < keys@.len() && order@[j] as int
                == sorted_positions(kv, keys@.len() as int)[j],
            out@.len() == k,
            forall|j: int| 0 <= j < k ==> #[trigger] out@[j] as int == sv[sorted_positions(kv, sv.len() as int)[j]],
        decreases order.len() - k,
    {
        let p = order[k];
        out.push(sel[p]);
        k = k + 1;
    }
    proof {
        lemma_sorted_positions(kv, sv.len() as int);
    }
    out
}

/// The model of a dictionary into which every definition of `ds` was added,
/// dictionary after dictionary, each in its own order.
pub open spec fn merged_model(ds: Seq<MetaDictionary>) -> DictModel
    decreases ds.len(),
{
    if ds.len() == 0 {
        empty_model()
    } else {
        model_add_all(merged_model(ds.drop_last()), ds.last().def_list())
    }
}

/// One metadictionary, without scheme, holding the definitions of all of
/// `dicts`; of two definitions with one identification the later wins.
pub fn merge_metadictionaries(dicts: &Vec<MetaDictionary>) -> (r: MetaDictionary)
    requires
        forall|i: int| 0 <= i < dicts@.len() ==> (#[trigger] dicts@[i]).wf(),
    ensures
        r.wf(),
        r.scheme_uri_view() == Seq::<char>::empty(),
        r.scheme_id_view() == Seq::<char>::empty(),
        r.model() == merged_model(dicts@),
{
    let mut merged = MetaDictionary::new(String::new(), String::new());
    let mut i: usize = 0;
    while i < dicts.len()
        invariant
            i <= dicts@.len(),
            forall|j: int| 0 <= j < dicts@.len() ==> (#[trigger] dicts@[j]).wf(),
            merged.wf(),
            merged.scheme_uri_view() == Seq::<char>::empty(),
            merged.scheme_id_view() == Seq::<char>::empty(),
            merged.model() == merged_model(dicts@.take(i as int)),
        decreases dicts.len() - i,
    {
        let defs = dicts[i].all_definitions();
        let ghost dl = dicts@[i as int].def_list();
        let ghost base = merged.model();
        let mut k: usize = 0;
        while k < defs.len()
            invariant
                k <= defs@.len(),
                defs@.len() == dl.len(),
                forall|j: int| 0 <= j < defs@.len() ==> (#[trigger] defs@[j])@ == dl[j],
                merged.wf(),
                merged.scheme_uri_view() == Seq::<char>::empty(),
                merged.scheme_id_view() == Seq::<char>::empty(),
                merged.model() == model_add_all(base, dl.take(k as int)),
            decreases defs.len() - k,
        {
            let d = defs[k].clone_def();
            let _ = merged.add(d);
            proof {
                assert(dl.take(k as int + 1).drop_last() =~= dl.take(k as int));
            }
            k = k + 1;
        }
        proof {
            assert(dl.take(k as int) =~= dl);
            assert(dicts@.take(i as int + 1).drop_last() =~= dicts@.take(i as int));
        }
        i = i + 1;
    }
    proof {
        assert(dicts@.take(i as int) =~= dicts@);
    }
    merged
}

/// The labels of registers merged one after the other, earlier entries
/// winning.
pub open spec fn merged_labels(regs: Seq<LabelsRegister>) -> Map<crate::types::Auid, Seq<char>>
    decreases regs.len(),
{
    if regs.len() == 0 {
        Map::empty()
    } else {
        union_prefer_left(merged_labels(regs.drop_last()), regs.last().labels())
    }
}

/// One register holding the labels of all of `regs`; where two give a
/// label to one AUID, the earlier one is kept.
pub fn merge_label_registers(regs: Vec<LabelsRegister>) -> (r: LabelsRegister)
    ensures
        r.wf(),
        r.labels() == merged_labels(regs@),
{
    let ghost all = regs@;
    let n = regs.len();
    let mut merged = LabelsRegister::empty();
    let mut rest = regs;
    let mut i: usize = 0;
    while rest.len() > 0
        invariant
            merged.wf(),
            i + rest@.len() == all.len(),
            all.len() == n,
            rest@ == all.skip(i as int),
            merged.labels() == merged_labels(all.take(i as int)),
        decreases rest.len(),
    {
        let reg = rest.remove(0);
        proof {
            assert(rest@ =~= all.skip(i as int + 1));
        }
        proof {
            assert(reg == all[i as int]);
            assert(all.take(i as int + 1).drop_last() =~= all.take(i as int));
        }
        merged = merged.merge(reg);
        i = i + 1;
    }
    proof {
        assert(all.take(i as int) =~= all);
    }
    merged
}


/// Whether a character is an ASCII letter.
pub open spec fn is_ascii_letter(c: char) -> bool {
    ('a' <= c && c <= 'z') || ('A' <= c && c <= 'Z')
}

/// A single-dash long option (`-all`, `-header`: one dash and at least two
/// ASCII letters) written with two dashes; any other argument as it is.
pub open spec fn normalized_arg(a: Seq<char>) -> Seq<char> {
    if a.len() > 2 && a[0] == '-' && forall|i: int| 1 <= i < a.len() ==> is_ascii_letter(#[trigger] a[i]) {
        seq!['-'] + a
    } else {
        a
    }
}

/// Rewrite a command-line argument as [`normalized_arg`] says.
pub fn normalize_arg(arg: &str) -> (r: String)
    ensures
        r@ == normalized_arg(arg@),
{
    let cs = chars_of(arg);
    let n = cs.len();
    let mut single_dash = n > 2 && cs[0] == '-';
    let mut i: usize = 1;
    while single_dash && i < n
        invariant
            cs@ == arg@,
            n == cs@.len(),
            1 <= i,
            single_dash ==> i <= n,
            single_dash ==> n > 2 && cs@[0] == '-' && forall|j: int| 1 <= j < i ==> is_ascii_letter(#[trigger] cs@[j]),
            !single_dash ==> normalized_arg(arg@) == arg@,
        decreases n - i,
    {
        let c = cs[i];
        if !(('a' <= c && c <= 'z') || ('A' <= c && c <= 'Z')) {
            single_dash = false;
        }
        i = i + 1;
    }
    if single_dash {
        let mut out: Vec<char> = Vec::new();
        out.push('-');
        append_chars(&mut out, &cs);
        proof {
            assert(out@ =~= seq!['-'] + arg@);
        }
        string_of(&out)
    } else {
        String::from_str(arg)
    }
}


/// `name` appended to the directory path `dir` as a path component: an
/// absolute `name` replaces `dir`; a separator is put between them unless
/// `dir` is empty or already ends with one.
pub open spec fn joined_path(dir: Seq<char>, name: Seq<char>) -> Seq<char> {
    if name.len() > 0 && name[0] == '/' {
        name
    } else if dir.len() == 0 || dir.last() == '/' {
        dir + name
    } else {
        dir + seq!['/'] + name
    }
}

/// The output path for `path`: inside it, under `default_filename`, where
/// `path` is an existing directory (`is_dir`); else `path` itself.
pub fn resolve_output(path: &str, is_dir: bool, default_filename: &str) -> (r: String)
    ensures
        r@ == if is_dir {
            joined_path(path@, default_filename@)
        } else {
            path@
        },
{
    if !is_dir {
        return String::from_str(path);
    }
    let dir = chars_of(path);
    let name = chars_of(default_filename);
    if name.len() > 0 && name[0] == '/' {
        return String::from_str(default_filename);
    }
    let mut out: Vec<char> = Vec::new();
    append_chars(&mut out, &dir);
    if !(dir.len() == 0 || dir[dir.len() - 1] == '/') {
        out.push('/');
    }
    append_chars(&mut out, &name);
    proof {
        if dir@.len() == 0 || dir@.last() == '/' {
            assert(out@ =~= path@ + default_filename@);
        } else {
            assert(out@ =~= path@ + seq!['/'] + default_filename@);
        }
    }
    string_of(&out)
}

} // verus!
