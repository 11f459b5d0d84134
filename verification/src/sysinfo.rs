//! What a run records of its host and of the sources it was built from, read off
//! the answers of the system.

use crate::result::{GitInfo, HostInfo};
use crate::text::{
    chars_of, find, find_from, has_substring, lines, lines_of, occurs_at, slice_of, string_of, trim,
    trim_chars, trim_start, trimmed, trimmed_start, views,
};
use vstd::prelude::*;

verus! {

/// The characters of an answer, if there is one.
pub open spec fn answer(a: Option<String>) -> Option<Seq<char>> {
    match a {
        Some(s) => Some(s@),
        None => None,
    }
}

/// An answer without white space around it, unless nothing is left of it.
pub open spec fn usable_text(a: Option<Seq<char>>) -> Option<Seq<char>> {
    match a {
        Some(s) => if trimmed(s).len() > 0 {
            Some(trimmed(s))
        } else {
            None
        },
        None => None,
    }
}

/// An answer without white space around it, unless nothing is left of it.
pub fn usable(a: &Option<String>) -> (r: Option<String>)
    ensures
        answer(r) == usable_text(answer(*a)),
{
    match a {
        Some(s) => {
            let t = trim(s.as_str());
            if t.as_str().is_empty() {
                None
            } else {
                Some(t)
            }
        },
        None => None,
    }
}

/// The first usable one of some answers, or "unknown".
pub open spec fn first_usable_text(answers: Seq<Option<String>>) -> Seq<char>
    decreases answers.len(),
{
    if answers.len() == 0 {
        "unknown"@
    } else {
        match usable_text(answer(answers.first())) {
            Some(s) => s,
            None => first_usable_text(answers.drop_first()),
        }
    }
}

/// Something is always recorded: the first usable answer is not empty, and has no
/// white space around it.
pub proof fn law_something_is_recorded(answers: Seq<Option<String>>)
    ensures
        first_usable_text(answers).len() > 0,
        trimmed(first_usable_text(answers)) == first_usable_text(answers),
    decreases answers.len(),
{
    if answers.len() == 0 {
        reveal_strlit("unknown");
        assert(!crate::text::is_space("unknown"@.first()));
        assert(!crate::text::is_space("unknown"@.last()));
    } else {
        match usable_text(answer(answers.first())) {
            Some(_) => {
                crate::text::law_trimming_is_final(answer(answers.first())->0);
            },
            None => {
                law_something_is_recorded(answers.drop_first());
            },
        }
    }
}

/// The host's name: the first usable one of the answers to where it is kept.
pub fn hostname(answers: &[Option<String>]) -> (r: String)
    ensures
        r@ == first_usable_text(answers@),
{
    assert(answers@.skip(0) =~= answers@);
    for i in 0..answers.len()
        invariant
            first_usable_text(answers@) == first_usable_text(answers@.skip(i as int)),
    {
        if let Some(s) = usable(&answers[i]) {
            return s;
        }
        assert(answers@.skip(i as int).drop_first() =~= answers@.skip(i as int + 1));
    }
    "unknown".to_owned()
}

/// The model that a line of the processor information gives, if it does.
pub open spec fn model_of_line(line: Seq<char>) -> Option<Seq<char>> {
    if "model name"@.is_prefix_of(line) {
        let rest = line.skip("model name"@.len() as int);
        match find_from(rest, ":"@, 0) {
            Some(at) => Some(trimmed(rest.skip(at + 1))),
            None => None,
        }
    } else {
        None
    }
}

/// The model that the first line to give one gives.
pub open spec fn model_of_lines(lines: Seq<Seq<char>>) -> Option<Seq<char>>
    decreases lines.len(),
{
    if lines.len() == 0 {
        None
    } else {
        match model_of_line(lines.first()) {
            Some(m) => Some(m),
            None => model_of_lines(lines.drop_first()),
        }
    }
}

fn line_model(line: &Vec<char>) -> (r: Option<String>)
    ensures
        answer(r) == model_of_line(line@),
{
    let key: Vec<char> = chars_of("model name");
    if !occurs_at(line, &key, 0) {
        return None;
    }
    let rest: Vec<char> = slice_of(line, key.len(), line.len());
    assert(rest@ =~= line@.skip("model name"@.len() as int));
    proof {
        reveal_strlit(":");
    }
    let colon: Vec<char> = chars_of(":");
    match find(&rest, &colon, 0) {
        Some(at) => {
            let value: Vec<char> = slice_of(&rest, at + 1, rest.len());
            assert(value@ =~= rest@.skip(at + 1));
            Some(string_of(trim_chars(&value).as_slice()))
        },
        None => None,
    }
}

/// The processor model that the processor information gives, if it gives one.
pub fn model_from_cpuinfo(cpuinfo: &str) -> (r: Option<String>)
    ensures
        answer(r) == model_of_lines(lines_of(cpuinfo@)),
{
    let all: Vec<Vec<char>> = lines(cpuinfo);
    let ghost texts = views(all@);
    assert(texts.skip(0) =~= texts);
    for i in 0..all.len()
        invariant
            texts == views(all@),
            texts == lines_of(cpuinfo@),
            model_of_lines(texts) == model_of_lines(texts.skip(i as int)),
    {
        if let Some(m) = line_model(&all[i]) {
            return Some(m);
        }
        assert(texts.skip(i as int).drop_first() =~= texts.skip(i as int + 1));
    }
    None
}

/// The processor's model: the brand that the system gives, where it gives a usable
/// one, else what the processor information gives.
pub open spec fn cpu_model_text(brand: Option<Seq<char>>, cpuinfo: Option<Seq<char>>) -> Seq<char> {
    match usable_text(brand) {
        Some(b) => b,
        None => match cpuinfo {
            Some(info) => match model_of_lines(lines_of(info)) {
                Some(m) => m,
                None => "unknown"@,
            },
            None => "unknown"@,
        },
    }
}

/// The processor's model, from the brand string and the processor information, so
/// far as the system has them.
pub fn cpu_model(brand: &Option<String>, cpuinfo: &Option<String>) -> (r: String)
    ensures
        r@ == cpu_model_text(answer(*brand), answer(*cpuinfo)),
{
    if let Some(b) = usable(brand) {
        return b;
    }
    if let Some(info) = cpuinfo {
        if let Some(m) = model_from_cpuinfo(info.as_str()) {
            return m;
        }
    }
    "unknown".to_owned()
}

/// The revision that a line of a manifest pins `gyroflow-core` to, if it does.
pub open spec fn rev_of_line(line: Seq<char>) -> Option<Seq<char>> {
    let t = trimmed_start(line);
    if "#"@.is_prefix_of(t) || !has_substring(t, "gyroflow-core"@) {
        None
    } else {
        match find_from(t, "rev = \""@, 0) {
            Some(start) => {
                let rest = t.skip(start + "rev = \""@.len());
                match find_from(rest, "\""@, 0) {
                    Some(end) => Some(rest.take(end)),
                    None => None,
                }
            },
            None => None,
        }
    }
}

/// The revision that the first line to pin one gives.
pub open spec fn rev_of_lines(lines: Seq<Seq<char>>) -> Option<Seq<char>>
    decreases lines.len(),
{
    if lines.len() == 0 {
        None
    } else {
        match rev_of_line(lines.first()) {
            Some(r) => Some(r),
            None => rev_of_lines(lines.drop_first()),
        }
    }
}

fn line_rev(line: &Vec<char>) -> (r: Option<String>)
    ensures
        answer(r) == rev_of_line(line@),
{
    let lo: usize = trim_start(line);
    let t: Vec<char> = slice_of(line, lo, line.len());
    assert(t@ =~= trimmed_start(line@));
    let hash: Vec<char> = chars_of("#");
    if occurs_at(&t, &hash, 0) {
        return None;
    }
    let name: Vec<char> = chars_of("gyroflow-core");
    proof {
        crate::text::law_finds_the_first(t@, name@, 0);
    }
    if find(&t, &name, 0).is_none() {
        return None;
    }
    let key: Vec<char> = chars_of("rev = \"");
    let start: usize = match find(&t, &key, 0) {
        Some(at) => at,
        None => return None,
    };
    let rest: Vec<char> = slice_of(&t, start + key.len(), t.len());
    assert(rest@ =~= t@.skip(start + "rev = \""@.len()));
    let quote: Vec<char> = chars_of("\"");
    match find(&rest, &quote, 0) {
        Some(end) => {
            let rev: Vec<char> = slice_of(&rest, 0, end);
            assert(rev@ =~= rest@.take(end as int));
            Some(string_of(rev.as_slice()))
        },
        None => None,
    }
}

/// The revision of `gyroflow-core` that a manifest pins, or "unknown".
pub open spec fn core_rev_text(manifest: Option<Seq<char>>) -> Seq<char> {
    match manifest {
        Some(m) => match rev_of_lines(lines_of(m)) {
            Some(r) => r,
            None => "unknown"@,
        },
        None => "unknown"@,
    }
}

/// The revision of `gyroflow-core` that a manifest pins, or "unknown". Comments
/// are passed over.
pub fn core_rev(manifest: &Option<String>) -> (r: String)
    ensures
        r@ == core_rev_text(answer(*manifest)),
{
    if let Some(m) = manifest {
        let all: Vec<Vec<char>> = lines(m.as_str());
        let ghost texts = views(all@);
        assert(texts.skip(0) =~= texts);
        for i in 0..all.len()
            invariant
                texts == views(all@),
                texts == lines_of(m@),
                *manifest == Some(*m),
                rev_of_lines(texts) == rev_of_lines(texts.skip(i as int)),
        {
            if let Some(r) = line_rev(&all[i]) {
                return r;
            }
            assert(texts.skip(i as int).drop_first() =~= texts.skip(i as int + 1));
        }
    }
    "unknown".to_owned()
}

/// The revision of the plugin: what the version control answers, or "unknown".
pub fn plugin_rev(reply: &Option<String>) -> (r: String)
    ensures
        r@ == match usable_text(answer(*reply)) {
            Some(s) => s,
            None => "unknown"@,
        },
{
    match usable(reply) {
        Some(s) => s,
        None => "unknown".to_owned(),
    }
}

/// The revisions: of the plugin, from the version control's answer, and of
/// `gyroflow-core`, from the manifest that pins it.
pub fn collect_git(reply: &Option<String>, manifest: &Option<String>) -> (r: GitInfo)
    ensures
        r.plugin_rev@ == match usable_text(answer(*reply)) {
            Some(s) => s,
            None => "unknown"@,
        },
        r.core_rev@ == core_rev_text(answer(*manifest)),
{
    GitInfo { plugin_rev: plugin_rev(reply), core_rev: core_rev(manifest) }
}

/// The host, from the answers of the system. No cores are recorded where their
/// number is not known.
pub fn collect_host(
    names: &[Option<String>],
    os: &str,
    arch: &str,
    brand: &Option<String>,
    cpuinfo: &Option<String>,
    cores: Option<usize>,
) -> (r: HostInfo)
    ensures
        r.hostname@ == first_usable_text(names@),
        r.os@ == os@,
        r.arch@ == arch@,
        r.cpu_model@ == cpu_model_text(answer(*brand), answer(*cpuinfo)),
        r.cpu_cores == match cores {
            Some(n) => n,
            None => 0,
        },
{
    HostInfo {
        hostname: hostname(names),
        os: os.to_owned(),
        arch: arch.to_owned(),
        cpu_model: cpu_model(brand, cpuinfo),
        cpu_cores: match cores {
            Some(n) => n,
            None => 0,
        },
    }
}

/// The root of the repository as the version control answers it, if it answers.
pub fn repo_root(reply: &Option<String>) -> (r: Option<String>)
    ensures
        answer(r) == match answer(*reply) {
            Some(s) => Some(trimmed(s)),
            None => None,
        },
{
    match reply {
        Some(s) => Some(trim(s.as_str())),
        None => None,
    }
}

/// An answer is used without the white space around it, if anything is left, and
/// otherwise not at all.
pub proof fn law_usable_answers(a: Option<String>, s: Seq<char>)
    ensures
        a matches Some(t) ==> answer(a) == Some(t@),
        a is None ==> answer(a) is None,
        usable_text(None) is None,
        usable_text(Some(s)) is Some <==> trimmed(s).len() > 0,
        usable_text(Some(s)) matches Some(t) ==> t == trimmed(s),
{
}

/// Of several answers the first usable one is recorded, whatever comes behind it, and
/// "unknown" where none is usable.
pub proof fn law_first_usable_answer(answers: Seq<Option<String>>, i: int)
    ensures
        0 <= i < answers.len() && usable_text(answer(answers[i])) is Some && (forall|j: int|
            0 <= j < i ==> usable_text(answer(#[trigger] answers[j])) is None)
            ==> first_usable_text(answers) == usable_text(answer(answers[i]))->0,
        (forall|j: int|
            0 <= j < answers.len() ==> usable_text(answer(#[trigger] answers[j])) is None)
            ==> first_usable_text(answers) == "unknown"@,
    decreases answers.len(),
{
    if answers.len() > 0 {
        let rest = answers.drop_first();
        law_first_usable_answer(rest, i - 1);
        assert(forall|j: int| 0 <= j < rest.len() ==> #[trigger] rest[j] == answers[j + 1]);
    }
}

/// A line gives the processor's model where it starts with `model name`: it is what
/// stands behind the first colon, without the white space around it. Other lines
/// give none, nor does one without a colon behind these words.
pub proof fn law_model_lines(gap: Seq<char>, value: Seq<char>, line: Seq<char>)
    requires
        !gap.contains(':'),
    ensures
        model_of_line("model name"@ + gap.push(':') + value) == Some(trimmed(value)),
        model_of_line("model name"@ + gap) is None,
        !"model name"@.is_prefix_of(line) ==> model_of_line(line) is None,
{
    reveal_strlit(":");
    let key = "model name"@;
    let k = key.len() as int;
    let full = key + gap.push(':') + value;
    let rest = full.skip(k);
    assert(rest =~= gap.push(':') + value);
    assert(full.take(k) =~= key);
    assert(key.is_prefix_of(full)) by {
        assert(full.subrange(0, k) =~= key);
    }
    lemma_found_at(gap, ":"@, value);
    assert(gap + ":"@ + value =~= rest);
    assert(rest.skip(gap.len() as int + 1) =~= value);
    let bare = key + gap;
    assert(bare.skip(k) =~= gap);
    lemma_not_found(gap, ":"@);
}

/// A text of one character that does not stand in what comes before is found right
/// behind that.
proof fn lemma_found_at(before: Seq<char>, needle: Seq<char>, behind: Seq<char>)
    requires
        needle.len() == 1,
        !before.contains(needle[0]),
    ensures
        find_from(before + needle + behind, needle, 0) == Some(before.len() as int),
{
    lemma_found_from(before + needle + behind, needle, before.len() as int, 0);
}

proof fn lemma_found_from(hay: Seq<char>, needle: Seq<char>, at: int, from: int)
    requires
        needle.len() == 1,
        0 <= from <= at < hay.len(),
        hay[at] == needle[0],
        forall|i: int| 0 <= i < at ==> hay[i] != needle[0],
    ensures
        find_from(hay, needle, from) == Some(at),
    decreases at - from,
{
    assert(hay.subrange(from, from + 1)[0] == hay[from]);
    if from < at {
        lemma_found_from(hay, needle, at, from + 1);
    } else {
        assert(hay.subrange(at, at + 1) =~= needle);
    }
}

proof fn lemma_not_found(hay: Seq<char>, needle: Seq<char>)
    requires
        needle.len() == 1,
        !hay.contains(needle[0]),
    ensures
        find_from(hay, needle, 0) is None,
{
    crate::text::law_finds_the_first(hay, needle, 0);
    if let Some(at) = find_from(hay, needle, 0) {
        assert(hay.subrange(at, at + 1)[0] == hay[at]);
        assert(hay.contains(needle[0]));
    }
}

/// Of several lines, the first that gives a model or pins a revision decides,
/// whatever stands in the others.
pub proof fn law_first_line_decides(lines: Seq<Seq<char>>, i: int)
    ensures
        0 <= i < lines.len() && model_of_line(lines[i]) is Some && (forall|j: int|
            0 <= j < i ==> model_of_line(#[trigger] lines[j]) is None) ==> model_of_lines(lines)
            == model_of_line(lines[i]),
        (forall|j: int| 0 <= j < lines.len() ==> model_of_line(#[trigger] lines[j]) is None)
            ==> model_of_lines(lines) is None,
        0 <= i < lines.len() && rev_of_line(lines[i]) is Some && (forall|j: int|
            0 <= j < i ==> rev_of_line(#[trigger] lines[j]) is None) ==> rev_of_lines(lines)
            == rev_of_line(lines[i]),
        (forall|j: int| 0 <= j < lines.len() ==> rev_of_line(#[trigger] lines[j]) is None)
            ==> rev_of_lines(lines) is None,
    decreases lines.len(),
{
    if lines.len() > 0 {
        let rest = lines.drop_first();
        law_first_line_decides(rest, i - 1);
        assert(forall|j: int| 0 <= j < rest.len() ==> #[trigger] rest[j] == lines[j + 1]);
    }
}

/// The brand comes first, then the processor information, and "unknown" is recorded
/// only where neither gives a model.
pub proof fn law_cpu_model(brand: Option<Seq<char>>, info: Seq<char>)
    ensures
        usable_text(brand) matches Some(b) ==> cpu_model_text(brand, Some(info)) == b
            && cpu_model_text(brand, None) == b,
        usable_text(brand) is None ==> cpu_model_text(brand, None) == "unknown"@,
        usable_text(brand) is None ==> cpu_model_text(brand, Some(info)) == match model_of_lines(
            lines_of(info),
        ) {
            Some(m) => m,
            None => "unknown"@,
        },
{
}

/// A line that is no comment and names `gyroflow-core` pins it to what stands between
/// the quotes of its first `rev = "`. Comments, however far they are indented, lines
/// on other crates and lines without a revision in quotes pin nothing.
pub proof fn law_revision_lines(
    line: Seq<char>,
    front: Seq<char>,
    rev: Seq<char>,
    back: Seq<char>,
)
    ensures
        "#"@.is_prefix_of(trimmed_start(line)) ==> rev_of_line(line) is None,
        !has_substring(trimmed_start(line), "gyroflow-core"@) ==> rev_of_line(line) is None,
        !has_substring(trimmed_start(line), "rev = \""@) ==> rev_of_line(line) is None,
        trimmed_start(line) == front + "rev = \""@ + rev + "\""@ + back && !rev.contains('"')
            && find_from(trimmed_start(line), "rev = \""@, 0) == Some(front.len() as int)
            && !"#"@.is_prefix_of(trimmed_start(line)) && has_substring(
            trimmed_start(line),
            "gyroflow-core"@,
        ) ==> rev_of_line(line) == Some(rev),
        trimmed_start(line) == front + "rev = \""@ + rev && !rev.contains('"') && find_from(
            trimmed_start(line),
            "rev = \""@,
            0,
        ) == Some(front.len() as int) ==> rev_of_line(line) is None,
{
    reveal_strlit("\"");
    let t = trimmed_start(line);
    let key = "rev = \""@;
    crate::text::law_finds_the_first(t, key, 0);
    let start = front.len() as int;
    if t == front + key + rev + "\""@ + back && !rev.contains('"') {
        let rest = t.skip(start + key.len());
        assert(rest =~= rev + "\""@ + back);
        lemma_found_at(rev, "\""@, back);
        assert(rest.take(rev.len() as int) =~= rev);
    }
    if t == front + key + rev && !rev.contains('"') {
        let rest = t.skip(start + key.len());
        assert(rest =~= rev);
        lemma_not_found(rev, "\""@);
    }
}

/// The core's revision is what the first line of the manifest to pin one pins, and
/// "unknown" without a manifest or such a line.
pub proof fn law_core_revision(manifest: Seq<char>)
    ensures
        core_rev_text(None) == "unknown"@,
        rev_of_lines(lines_of(manifest)) matches Some(r) ==> core_rev_text(Some(manifest)) == r,
        rev_of_lines(lines_of(manifest)) is None ==> core_rev_text(Some(manifest)) == "unknown"@,
{
}

} // verus!
