use serde_json::Value;
use vstd::prelude::*;
use crate::json::{
    element_of, json_bool, json_element, json_equal, json_member, json_model, json_parse,
    json_text, member_of, parsed_json, JsonModel,
};
use crate::text::{
    all_digits, chars_of, decimal_usize, first_occurrence, occurs_at, occurs_nowhere, owned,
    parse_index, same_text, split_at_first, strip_leading, trim_text, trimmed, unquote, unquoted,
    without_leading,
};

verus! {

/// One step of a path into a JSON value.
#[derive(Debug)]
pub enum PathStep {
    /// Into the member of this name of an object.
    Key(String),
    /// Into the element at this index of an array.
    Index(usize),
}

/// Mathematical content of a `PathStep`.
pub enum StepModel {
    Key(Seq<char>),
    Index(usize),
}

impl View for PathStep {
    type V = StepModel;

    open spec fn view(&self) -> StepModel {
        match self {
            PathStep::Key(k) => StepModel::Key(k@),
            PathStep::Index(n) => StepModel::Index(*n),
        }
    }
}

/// The steps of a list, as plain values.
pub open spec fn steps_view(steps: Seq<PathStep>) -> Seq<StepModel> {
    steps.map_values(|s: PathStep| s@)
}

/// Position of the first `.` or `[` at or after `from`; the length of the path when there
/// is none.
pub open spec fn key_end(path: Seq<char>, from: int) -> int
    decreases path.len() - from,
{
    if from < 0 || from >= path.len() || path[from] == '.' || path[from] == '[' {
        from
    } else {
        key_end(path, from + 1)
    }
}

/// Position of the first character at or after `from` that is no digit; the length of the
/// path when there is none.
pub open spec fn digits_end(path: Seq<char>, from: int) -> int
    decreases path.len() - from,
{
    if from < 0 || from >= path.len() || !('0' <= path[from] && path[from] <= '9') {
        from
    } else {
        digits_end(path, from + 1)
    }
}

/// The steps that the path spells from position `idx` on: names separated by `.`, each
/// optionally followed by indices written as `[n]`. `None` when an index is malformed.
pub open spec fn steps_from(path: Seq<char>, idx: int) -> Option<Seq<StepModel>>
    decreases path.len() - idx,
{
    if idx < 0 {
        None
    } else if idx >= path.len() {
        Some(Seq::empty())
    } else {
        let j = key_end(path, idx);
        let head = if j > idx {
            seq![StepModel::Key(path.subrange(idx, j))]
        } else {
            Seq::empty()
        };
        if j < idx {
            None
        } else if j >= path.len() {
            Some(head)
        } else if path[j] == '.' {
            match steps_from(path, j + 1) {
                Some(rest) => Some(head + rest),
                None => None,
            }
        } else {
            let k = digits_end(path, j + 1);
            if k <= j + 1 || k >= path.len() || path[k] != ']' {
                None
            } else {
                match decimal_usize(path.subrange(j + 1, k)) {
                    None => None,
                    Some(n) => {
                        let next = if k + 1 < path.len() && path[k + 1] == '.' {
                            k + 2
                        } else {
                            k + 1
                        };
                        match steps_from(path, next) {
                            Some(rest) => Some(head + seq![StepModel::Index(n)] + rest),
                            None => None,
                        }
                    },
                }
            }
        }
    }
}

/// The steps that a path spells. A path begins with `.`; anything else is no path.
pub open spec fn path_steps(path: Seq<char>) -> Option<Seq<StepModel>> {
    if path.len() > 0 && path[0] == '.' {
        steps_from(path, 1)
    } else {
        None
    }
}

/// The value one step into `m`.
pub open spec fn step_into(m: JsonModel, step: StepModel) -> Option<JsonModel> {
    match step {
        StepModel::Key(k) => member_of(m, k),
        StepModel::Index(n) => element_of(m, n),
    }
}

/// The value that the steps lead to from `m`; `None` when a member or an element on the
/// way is missing.
pub open spec fn resolved(m: JsonModel, steps: Seq<StepModel>) -> Option<JsonModel>
    decreases steps.len(),
{
    if steps.len() == 0 {
        Some(m)
    } else {
        match step_into(m, steps[0]) {
            Some(c) => resolved(c, steps.skip(1)),
            None => None,
        }
    }
}

/// The value at `path` in `m`; `None` for what is no path and for a path that leads
/// nowhere.
pub open spec fn path_value(m: JsonModel, path: Seq<char>) -> Option<JsonModel> {
    match path_steps(path) {
        Some(steps) => resolved(m, steps),
        None => None,
    }
}

/// `acc` followed by `rest`, where there is a rest.
pub open spec fn continued(acc: Seq<StepModel>, rest: Option<Seq<StepModel>>) -> Option<
    Seq<StepModel>,
> {
    match rest {
        Some(r) => Some(acc + r),
        None => None,
    }
}

/// Finds the end of the name that begins at `from`.
fn scan_key(path: &Vec<char>, from: usize) -> (j: usize)
    requires
        from <= path.len(),
    ensures
        j == key_end(path@, from as int),
        from <= j <= path.len(),
{
    let mut j: usize = from;
    while j < path.len() && path[j] != '.' && path[j] != '['
        invariant
            from <= j <= path.len(),
            key_end(path@, from as int) == key_end(path@, j as int),
        decreases path.len() - j,
    {
        j += 1;
    }
    j
}

/// Finds the end of the digits that begin at `from`.
fn scan_digits(path: &Vec<char>, from: usize) -> (k: usize)
    requires
        from <= path.len(),
    ensures
        k == digits_end(path@, from as int),
        from <= k <= path.len(),
        forall|i: int| from <= i < k ==> '0' <= #[trigger] path@[i] && path@[i] <= '9',
{
    let mut k: usize = from;
    while k < path.len() && '0' <= path[k] && path[k] <= '9'
        invariant
            from <= k <= path.len(),
            digits_end(path@, from as int) == digits_end(path@, k as int),
            forall|i: int| from <= i < k ==> '0' <= #[trigger] path@[i] && path@[i] <= '9',
        decreases path.len() - k,
    {
        k += 1;
    }
    k
}

/// Reads a path into its steps.
pub fn parse_path(path: &str) -> (r: Option<Vec<PathStep>>)
    ensures
        match r {
            Some(steps) => path_steps(path@) == Some(steps_view(steps@)),
            None => path_steps(path@) is None,
        },
{
    let chars = chars_of(path);
    if chars.len() == 0 || chars[0] != '.' {
        return None;
    }
    let mut steps: Vec<PathStep> = Vec::new();
    let mut idx: usize = 1;
    assert(steps_view(steps@) + steps_from(chars@, 1)->0 =~= steps_from(chars@, 1)->0);
    while idx < chars.len()
        invariant
            1 <= idx,
            chars@ == path@,
            path_steps(path@) == continued(steps_view(steps@), steps_from(chars@, idx as int)),
        decreases chars.len() - idx,
    {
        let ghost acc = steps_view(steps@);
        let j = scan_key(&chars, idx);
        if j > idx {
            let key = path.substring_char(idx, j).to_owned();
            steps.push(PathStep::Key(key));
            assert(steps_view(steps@) =~= acc + seq![StepModel::Key(chars@.subrange(idx as int, j as int))]);
        } else {
            assert(steps_view(steps@) =~= acc + Seq::<StepModel>::empty());
        }
        let ghost acc1 = steps_view(steps@);
        if j >= chars.len() {
            assert(acc1 + Seq::<StepModel>::empty() =~= acc1);
            return Some(steps);
        }
        if chars[j] == '.' {
            proof {
                match steps_from(chars@, j + 1) {
                    Some(rest) => {
                        let head = acc1.subrange(acc.len() as int, acc1.len() as int);
                        assert(acc1 =~= acc + head);
                        assert(acc + (head + rest) =~= acc1 + rest);
                    },
                    None => {},
                }
            }
            idx = j + 1;
        } else {
            let k = scan_digits(&chars, j + 1);
            if k == j + 1 || k >= chars.len() || chars[k] != ']' {
                return None;
            }
            let digits = path.substring_char(j + 1, k);
            assert(all_digits(digits@));
            let n = match parse_index(digits) {
                Some(n) => n,
                None => {
                    return None;
                },
            };
            steps.push(PathStep::Index(n));
            let next: usize = if k + 1 < chars.len() && chars[k + 1] == '.' {
                k + 2
            } else {
                k + 1
            };
            proof {
                assert(steps_view(steps@) =~= acc1 + seq![StepModel::Index(n)]);
                match steps_from(chars@, next as int) {
                    Some(rest) => {
                        let head = acc1.subrange(acc.len() as int, acc1.len() as int);
                        assert(acc1 =~= acc + head);
                        assert(acc + (head + seq![StepModel::Index(n)] + rest) =~= steps_view(
                            steps@,
                        ) + rest);
                    },
                    None => {},
                }
            }
            idx = next;
        }
    }
    assert(steps_view(steps@) + Seq::<StepModel>::empty() =~= steps_view(steps@));
    Some(steps)
}

/// Follows the steps from `root`.
pub fn resolve<'a>(root: &'a Value, steps: &Vec<PathStep>) -> (r: Option<&'a Value>)
    ensures
        match r {
            Some(v) => resolved(json_model(*root), steps_view(steps@)) == Some(json_model(*v)),
            None => resolved(json_model(*root), steps_view(steps@)) is None,
        },
{
    let mut cur: &Value = root;
    let mut i: usize = 0;
    assert(steps_view(steps@).skip(0) =~= steps_view(steps@));
    while i < steps.len()
        invariant
            i <= steps.len(),
            resolved(json_model(*root), steps_view(steps@)) == resolved(
                json_model(*cur),
                steps_view(steps@).skip(i as int),
            ),
        decreases steps.len() - i,
    {
        let ghost rest = steps_view(steps@).skip(i as int);
        assert(rest[0] == steps@[i as int]@);
        assert(rest.skip(1) =~= steps_view(steps@).skip(i + 1));
        let next = match &steps[i] {
            PathStep::Key(k) => json_member(cur, k.as_str()),
            PathStep::Index(n) => json_element(cur, *n),
        };
        match next {
            Some(c) => {
                cur = c;
            },
            None => {
                return None;
            },
        }
        i += 1;
    }
    Some(cur)
}

/// The value at `path` in `root`, where `path` is written as `.a.b[0].c`.
pub fn json_path_get<'a>(root: &'a Value, path: &str) -> (r: Option<&'a Value>)
    ensures
        match r {
            Some(v) => path_value(json_model(*root), path@) == Some(json_model(*v)),
            None => path_value(json_model(*root), path@) is None,
        },
{
    match parse_path(path) {
        Some(steps) => resolve(root, &steps),
        None => None,
    }
}

/// What the right side of a comparison denotes: the JSON value it spells, or else the text
/// itself, without enclosing double quotes.
pub open spec fn literal_model(right: Seq<char>) -> JsonModel {
    match parsed_json(right) {
        Some(m) => m,
        None => JsonModel::Text(unquoted(trimmed(right))),
    }
}

/// What a comparison `left == right` evaluates to, cut at `at`, the first `==`: whether the
/// value at the path on the left equals the literal on the right. A path that leads nowhere
/// equals nothing.
pub open spec fn comparison_outcome(src: Seq<char>, at: int, m: JsonModel) -> Result<
    bool,
    Seq<char>,
> {
    let left = trimmed(src.subrange(0, at));
    let right = trimmed(without_leading(src.subrange(at, src.len() as int), "=="@));
    match path_value(m, left) {
        Some(found) => Ok(found == literal_model(right)),
        None => Ok(false),
    }
}

/// Whether `r` is what the expression `program` evaluates to on `m`.
///
/// `true` holds always. `<path> == <literal>` holds when the value at the path equals the
/// literal, and does not hold when the path leads nowhere. A path alone holds when the
/// value at it is `true`. Anything else does not hold. No expression gives an error.
pub open spec fn evaluates_to(program: Seq<char>, m: JsonModel, r: Result<bool, Seq<char>>) -> bool {
    let src = trimmed(program);
    if src == "true"@ {
        r == Ok::<bool, Seq<char>>(true)
    } else if !occurs_nowhere(src, "=="@) {
        exists|at: int| #[trigger] first_occurrence(src, "=="@, at) && r == comparison_outcome(src, at, m)
    } else if src.len() > 0 && src[0] == '.' {
        r == Ok::<bool, Seq<char>>(path_value(m, src) == Some(JsonModel::Bool(true)))
    } else {
        r == Ok::<bool, Seq<char>>(false)
    }
}

/// The truth value of a result, or the text of its error.
pub open spec fn outcome_view(r: Result<bool, String>) -> Result<bool, Seq<char>> {
    match r {
        Ok(b) => Ok(b),
        Err(e) => Err(e@),
    }
}

/// Evaluates a small path expression on a JSON value. Every expression evaluates to a
/// truth value: one that is not understood, or whose path leads nowhere, does not hold.
pub fn eval_jq_bool(program: &str, value: &Value) -> (r: Result<bool, String>)
    ensures
        r is Ok,
        evaluates_to(program@, json_model(*value), outcome_view(r)),
{
    proof {
        reveal_strlit("==");
    }
    let src = trim_text(program);
    if same_text(src, "true") {
        return Ok(true);
    }
    match split_at_first(src, "==") {
        Some((before, rest)) => {
            let ghost at = before@.len() as int;
            assert(src@.subrange(0, at) =~= before@);
            assert(src@.subrange(at, src@.len() as int) =~= rest@);
            let left = trim_text(before);
            let right = trim_text(strip_leading(rest, "=="));
            let found = match json_path_get(value, left) {
                Some(v) => v,
                None => {
                    let r = Ok(false);
                    assert(outcome_view(r) == comparison_outcome(src@, at, json_model(*value)));
                    assert(!occurs_nowhere(src@, "=="@)) by {
                        assert(occurs_at(src@, "=="@, at));
                    }
                    return r;
                },
            };
            let literal: Value = match json_parse(right) {
                Some(v) => v,
                None => json_text(unquote(trim_text(right))),
            };
            let r = Ok(json_equal(found, &literal));
            assert(outcome_view(r) == comparison_outcome(src@, at, json_model(*value)));
            assert(!occurs_nowhere(src@, "=="@)) by {
                assert(occurs_at(src@, "=="@, at));
            }
            return r;
        },
        None => {},
    }
    if src.unicode_len() > 0 && src.get_char(0) == '.' {
        match json_path_get(value, src) {
            Some(v) => {
                let t = json_bool(true);
                return Ok(json_equal(v, &t));
            },
            None => {
                return Ok(false);
            },
        }
    }
    Ok(false)
}

/// An expression evaluates to one result only.
pub proof fn lemma_evaluation_unique(
    program: Seq<char>,
    m: JsonModel,
    a: Result<bool, Seq<char>>,
    b: Result<bool, Seq<char>>,
)
    requires
        evaluates_to(program, m, a),
        evaluates_to(program, m, b),
    ensures
        a == b,
{
    let src = trimmed(program);
    if src != "true"@ && !occurs_nowhere(src, "=="@) {
        let x = choose|at: int| #[trigger]
            first_occurrence(src, "=="@, at) && a == comparison_outcome(src, at, m);
        let y = choose|at: int| #[trigger]
            first_occurrence(src, "=="@, at) && b == comparison_outcome(src, at, m);
        if x < y {
            assert(!occurs_at(src, "=="@, x));
        }
        if y < x {
            assert(!occurs_at(src, "=="@, y));
        }
    }
}

} // verus!
