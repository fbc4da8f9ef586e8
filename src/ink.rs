//! The ink script model: knots with labelled choices, a story of named knots,
//! and its rendering as text.
use vstd::prelude::*;

verus! {

/// A knot as values: its text and its (label, target name) choices.
pub type KnotView = (Seq<char>, Seq<(Seq<char>, Seq<char>)>);

/// The knots of a story as values, in storage order: (name, knot).
pub type Entries = Seq<(Seq<char>, KnotView)>;

/// The name of a knot.
#[derive(Clone, Debug, PartialEq, Eq, Hash)]
pub struct KnotName(pub String);

impl View for KnotName {
    type V = Seq<char>;

    open spec fn view(&self) -> Seq<char> {
        self.0@
    }
}

impl KnotName {
    /// The name as a string.
    pub fn to_string(&self) -> (r: String)
        ensures
            r@ == self@,
    {
        self.0.clone()
    }
}

impl From<String> for KnotName {
    fn from(name: String) -> (r: KnotName) {
        KnotName(name)
    }
}

impl vstd::std_specs::convert::FromSpecImpl<String> for KnotName {
    open spec fn obeys_from_spec() -> bool {
        true
    }

    open spec fn from_spec(name: String) -> KnotName {
        KnotName(name)
    }
}

/// A unit of the script: text, then the choices that lead on.
#[derive(Clone, Debug)]
pub struct Knot {
    pub text: String,
    pub choices: Vec<(String, KnotName)>,
}

impl View for Knot {
    type V = KnotView;

    open spec fn view(&self) -> KnotView {
        (self.text@, self.choices@.map_values(|c: (String, KnotName)| (c.0@, c.1@)))
    }
}

/// The line of one choice: `+ [label] -> target`.
pub open spec fn choice_line(c: (Seq<char>, Seq<char>)) -> Seq<char> {
    "+ ["@ + c.0 + "] -> "@ + c.1 + "\n"@
}

/// The lines of a list of choices, in order.
pub open spec fn choice_lines(cs: Seq<(Seq<char>, Seq<char>)>) -> Seq<char>
    decreases cs.len(),
{
    if cs.len() == 0 {
        Seq::empty()
    } else {
        choice_lines(cs.drop_last()) + choice_line(cs.last())
    }
}

/// The text line of a knot: absent when the text is empty.
pub open spec fn text_part(text: Seq<char>) -> Seq<char> {
    if text.len() > 0 {
        text + "\n"@
    } else {
        Seq::empty()
    }
}

/// A knot as text: its text line, then a line per choice, or the terminal
/// divert `-> END` when it has no choice.
pub open spec fn knot_text(k: KnotView) -> Seq<char> {
    text_part(k.0) + if k.1.len() > 0 {
        choice_lines(k.1)
    } else {
        "-> END\n"@
    }
}

impl Knot {
    /// Renders the knot: its text line unless the text is empty, then
    /// `+ [label] -> target` for each choice, or `-> END` where there is none.
    pub fn render(&self) -> (r: String)
        ensures
            r@ == knot_text(self@),
    {
        let mut out = String::new();
        if self.text.as_str().unicode_len() != 0 {
            out.append(self.text.as_str());
            out.append("\n");
        }
        proof {
            assert(out@ =~= text_part(self@.0));
        }
        let n = self.choices.len();
        if n == 0 {
            out.append("-> END\n");
        } else {
            let ghost head = out@;
            let mut i: usize = 0;
            while i < n
                invariant
                    n == self.choices@.len(),
                    i <= n,
                    out@ == head + choice_lines(self@.1.take(i as int)),
                decreases n - i,
            {
                let c = &self.choices[i];
                out.append("+ [");
                out.append(c.0.as_str());
                out.append("] -> ");
                out.append(c.1.0.as_str());
                out.append("\n");
                proof {
                    assert(self@.1.take(i as int + 1).drop_last() =~= self@.1.take(i as int));
                    assert(out@ =~= head + choice_lines(self@.1.take(i as int)) + choice_line(
                        self@.1[i as int],
                    ));
                }
                i = i + 1;
            }
            proof {
                assert(self@.1.take(n as int) =~= self@.1);
            }
        }
        out
    }
}

/// A story: the name of the knot to run first, and the knots by name.
#[derive(Clone, Debug)]
pub struct Story {
    pub start: KnotName,
    pub knots: Vec<(KnotName, Knot)>,
}

impl View for Story {
    type V = (Seq<char>, Entries);

    open spec fn view(&self) -> (Seq<char>, Entries) {
        (self.start@, self.knots@.map_values(|e: (KnotName, Knot)| (e.0@, e.1@)))
    }
}

/// The position of the first knot named `name`, or -1.
pub open spec fn find_index(ks: Entries, name: Seq<char>) -> int
    decreases ks.len(),
{
    if ks.len() == 0 {
        -1
    } else {
        let r = find_index(ks.drop_last(), name);
        if r >= 0 {
            r
        } else if ks.last().0 == name {
            ks.len() - 1
        } else {
            -1
        }
    }
}

/// The knots after storing `k` under `name`: a knot of that name is replaced
/// in place, else the new one goes last.
pub open spec fn insert_entry(ks: Entries, name: Seq<char>, k: KnotView) -> Entries {
    let i = find_index(ks, name);
    if i >= 0 {
        ks.update(i, (name, k))
    } else {
        ks.push((name, k))
    }
}

/// Names are unique among the knots.
pub open spec fn names_unique(ks: Entries) -> bool {
    forall|i: int, j: int| 0 <= i < j < ks.len() ==> ks[i].0 != ks[j].0
}

/// What `find_index` gives: -1 if no knot has the name, else the first one
/// that has it.
pub proof fn lemma_find_index(ks: Entries, name: Seq<char>)
    ensures
        -1 <= find_index(ks, name) < ks.len(),
        find_index(ks, name) == -1 <==> forall|k: int| 0 <= k < ks.len() ==> ks[k].0 != name,
        find_index(ks, name) >= 0 ==> ks[find_index(ks, name)].0 == name && forall|k: int|
            0 <= k < find_index(ks, name) ==> ks[k].0 != name,
    decreases ks.len(),
{
    if ks.len() > 0 {
        lemma_find_index(ks.drop_last(), name);
        assert forall|k: int| 0 <= k < ks.len() - 1 implies ks.drop_last()[k] == ks[k] by {}
    }
}

/// One step of the rendering walk: the knot at a position was emitted, or a
/// name that no knot has was met.
pub enum Visit {
    Found(int),
    Missing(Seq<char>),
}

/// The number of knots not yet emitted.
pub open spec fn count_false(e: Seq<bool>) -> nat
    decreases e.len(),
{
    if e.len() == 0 {
        0
    } else {
        count_false(e.drop_last()) + if e.last() {
            0nat
        } else {
            1nat
        }
    }
}

/// Marking a knot that was not emitted leaves fewer to emit.
proof fn lemma_count_false_update(e: Seq<bool>, i: int)
    requires
        0 <= i < e.len(),
        !e[i],
    ensures
        count_false(e.update(i, true)) < count_false(e),
    decreases e.len(),
{
    let u = e.update(i, true);
    if i == e.len() - 1 {
        assert(u.drop_last() =~= e.drop_last());
    } else {
        assert(u.drop_last() =~= e.drop_last().update(i, true));
        lemma_count_false_update(e.drop_last(), i);
    }
}

/// The names that a knot's choices lead to, in order.
pub open spec fn targets(cs: Seq<(Seq<char>, Seq<char>)>) -> Seq<Seq<char>> {
    cs.map_values(|c: (Seq<char>, Seq<char>)| c.1)
}

/// The walk from a queue of names: the first name is taken off; a knot of
/// that name not yet emitted is emitted and its choices' targets join the
/// back of the queue; a name that no knot has is reported once; anything
/// else is passed over.
pub open spec fn walk(ks: Entries, queue: Seq<Seq<char>>, emitted: Seq<bool>, missing: Seq<Seq<char>>) -> Seq<Visit>
    decreases count_false(emitted), queue.len(),
    via walk_decreases
{
    if queue.len() == 0 {
        Seq::empty()
    } else {
        let name = queue[0];
        let rest = queue.drop_first();
        let i = find_index(ks, name);
        if 0 <= i < emitted.len() {
            if !emitted[i] {
                seq![Visit::Found(i)] + walk(ks, rest + targets(ks[i].1.1), emitted.update(i, true), missing)
            } else {
                walk(ks, rest, emitted, missing)
            }
        } else if i < 0 && !missing.contains(name) {
            seq![Visit::Missing(name)] + walk(ks, rest, emitted, missing.push(name))
        } else {
            walk(ks, rest, emitted, missing)
        }
    }
}

#[via_fn]
proof fn walk_decreases(ks: Entries, queue: Seq<Seq<char>>, emitted: Seq<bool>, missing: Seq<Seq<char>>) {
    if queue.len() > 0 {
        let i = find_index(ks, queue[0]);
        if 0 <= i < emitted.len() && !emitted[i] {
            lemma_count_false_update(emitted, i);
        }
    }
}

/// The section of a knot: a header with its name, its text, a blank line.
pub open spec fn section(name: Seq<char>, k: KnotView) -> Seq<char> {
    "=== "@ + name + " ===\n"@ + knot_text(k) + "\n"@
}

/// The section for a name that no knot has.
pub open spec fn missing_section(name: Seq<char>) -> Seq<char> {
    "=== "@ + name + " ===\n"@ + "// knot not found\n"@
}

/// The text of one step of the walk.
pub open spec fn visit_text(ks: Entries, v: Visit) -> Seq<char> {
    match v {
        Visit::Found(i) => section(ks[i].0, ks[i].1),
        Visit::Missing(name) => missing_section(name),
    }
}

/// The text of the steps of a walk, in order.
pub open spec fn visits_text(ks: Entries, vs: Seq<Visit>) -> Seq<char>
    decreases vs.len(),
{
    if vs.len() == 0 {
        Seq::empty()
    } else {
        visits_text(ks, vs.drop_last()) + visit_text(ks, vs.last())
    }
}

/// The positions, in order, of the knots that `done` does not mark.
pub open spec fn unmarked(done: Seq<bool>) -> Seq<int>
    decreases done.len(),
{
    if done.len() == 0 {
        Seq::empty()
    } else if done.last() {
        unmarked(done.drop_last())
    } else {
        unmarked(done.drop_last()).push(done.len() - 1)
    }
}

/// The sections of the knots at the given positions, in order.
pub open spec fn sections_text(ks: Entries, idx: Seq<int>) -> Seq<char>
    decreases idx.len(),
{
    if idx.len() == 0 {
        Seq::empty()
    } else {
        sections_text(ks, idx.drop_last()) + section(ks[idx.last()].0, ks[idx.last()].1)
    }
}

/// The walk of a story: from its start name, with no knot emitted yet.
pub open spec fn story_walk(s: (Seq<char>, Entries)) -> Seq<Visit> {
    walk(s.1, seq![s.0], Seq::new(s.1.len(), |i: int| false), Seq::empty())
}

/// Which knots the walk of a story emits.
pub open spec fn reached(s: (Seq<char>, Entries)) -> Seq<bool> {
    Seq::new(s.1.len(), |i: int| story_walk(s).contains(Visit::Found(i)))
}

/// The knots that the walk of a story never reaches, in storage order.
pub open spec fn unreachable(s: (Seq<char>, Entries)) -> Seq<int> {
    unmarked(reached(s))
}

/// A story as text: a divert to the start knot, the sections in the order of
/// the walk, then, if some knot was never reached, a comment line and the
/// sections of those knots in storage order.
pub open spec fn story_text(s: (Seq<char>, Entries)) -> Seq<char> {
    "-> "@ + s.0 + "\n"@ + visits_text(s.1, story_walk(s)) + if unreachable(s).len() > 0 {
        "// Some knots are unreachable:\n"@ + sections_text(s.1, unreachable(s))
    } else {
        Seq::empty()
    }
}

/// Whether some string of `v` equals `s`.
fn contains_name(v: &Vec<String>, s: &String) -> (r: bool)
    ensures
        r == exists|k: int| 0 <= k < v@.len() && v@[k]@ == s@,
{
    let mut i: usize = 0;
    while i < v.len()
        invariant
            i <= v@.len(),
            forall|k: int| 0 <= k < i ==> v@[k]@ != s@,
        decreases v@.len() - i,
    {
        if v[i] == *s {
            return true;
        }
        i = i + 1;
    }
    false
}

impl Story {
    /// A story that starts at `start` and holds no knot yet.
    pub fn new(start: KnotName) -> (r: Story)
        ensures
            r@.0 == start@,
            r@.1 == Seq::<(Seq<char>, KnotView)>::empty(),
    {
        let r = Story { start, knots: Vec::new() };
        assert(r@.1 =~= Seq::<(Seq<char>, KnotView)>::empty());
        r
    }

    /// The position of the knot named `name`.
    pub fn position(&self, name: &String) -> (r: Option<usize>)
        ensures
            match r {
                Some(i) => i as int == find_index(self@.1, name@),
                None => find_index(self@.1, name@) == -1,
            },
    {
        proof {
            lemma_find_index(self@.1, name@);
        }
        let mut i: usize = 0;
        while i < self.knots.len()
            invariant
                i <= self.knots@.len(),
                forall|k: int| 0 <= k < i ==> self@.1[k].0 != name@,
            decreases self.knots@.len() - i,
        {
            if self.knots[i].0.0 == *name {
                proof {
                    lemma_find_index(self@.1, name@);
                    let f = find_index(self@.1, name@);
                    assert(self@.1[i as int].0 == name@);
                    if f >= 0 && f < i {
                        assert(self@.1[f].0 != name@);
                    }

                }
                return Some(i);
            }
            i = i + 1;
        }
        None
    }

    /// The knot named `name`, if any.
    pub fn get(&self, name: &String) -> (r: Option<&Knot>)
        ensures
            match r {
                Some(k) => find_index(self@.1, name@) >= 0 && k@ == self@.1[find_index(
                    self@.1,
                    name@,
                )].1,
                None => find_index(self@.1, name@) == -1,
            },
    {
        proof {
            lemma_find_index(self@.1, name@);
        }
        match self.position(name) {
            Some(i) => Some(&self.knots[i].1),
            None => None,
        }
    }

    /// Stores `knot` under `name`: a knot of that name is replaced, else the
    /// new one is added last. Unique names stay unique.
    pub fn insert(&mut self, name: KnotName, knot: Knot)
        ensures
            final(self)@.0 == old(self)@.0,
            final(self)@.1 == insert_entry(old(self)@.1, name@, knot@),
            names_unique(old(self)@.1) ==> names_unique(final(self)@.1),
    {
        proof {
            lemma_find_index(self@.1, name@);
        }
        let ghost name_v = name@;
        let ghost knot_v = knot@;
        match self.position(&name.0) {
            Some(i) => {
                self.knots.set(i, (name, knot));
            },
            None => {
                self.knots.push((name, knot));
            },
        }
        assert(self@.1 =~= insert_entry(old(self)@.1, name_v, knot_v));
    }
}

impl Story {
    /// Appends the section of the knot at position `i`.
    fn write_section(&self, out: &mut String, i: usize)
        requires
            i < self@.1.len(),
        ensures
            final(out)@ == old(out)@ + section(self@.1[i as int].0, self@.1[i as int].1),
    {
        let e = &self.knots[i];
        out.append("=== ");
        out.append(e.0.0.as_str());
        out.append(" ===\n");
        let body = e.1.render();
        out.append(body.as_str());
        out.append("\n");
        assert(out@ =~= old(out)@ + section(self@.1[i as int].0, self@.1[i as int].1));
    }

    /// Renders the story as an ink script. It opens with a divert to the
    /// start knot. The knots then come in breadth-first order from the start:
    /// each name taken off the queue that belongs to a knot not yet emitted
    /// emits that knot's section and queues the targets of its choices; a
    /// name that no knot has gets a "knot not found" section the first time
    /// it is met. Knots never reached follow, after a comment line, in storage
    /// order. Each knot is emitted once, so cycles end.
    pub fn render(&self) -> (r: String)
        ensures
            r@ == story_text(self@),
    {
        let ghost ks = self@.1;
        let n = self.knots.len();
        let mut emitted: Vec<bool> = Vec::new();
        while emitted.len() < n
            invariant
                emitted@.len() <= n,
                forall|k: int| 0 <= k < emitted@.len() ==> !emitted@[k],
            decreases n - emitted@.len(),
        {
            emitted.push(false);
        }
        let ghost init_e = emitted@;
        assert(init_e =~= Seq::new(ks.len(), |i: int| false));
        let mut out = String::new();
        out.append("-> ");
        out.append(self.start.0.as_str());
        out.append("\n");
        let ghost header = out@;
        let mut queue: Vec<String> = Vec::new();
        queue.push(self.start.0.clone());
        let ghost mut gq: Seq<Seq<char>> = seq![self.start@];
        let mut missing: Vec<String> = Vec::new();
        let ghost mut gm: Seq<Seq<char>> = Seq::empty();
        let ghost mut vs: Seq<Visit> = Seq::empty();
        let ghost total = story_walk(self@);
        assert(gq.subrange(0, 1) =~= gq);
        assert(vs + walk(ks, gq.subrange(0, 1), emitted@, gm) =~= total);
        let mut head: usize = 0;
        while head < queue.len()
            invariant
                ks == self@.1,
                n == ks.len(),
                emitted@.len() == n,
                gq.len() == queue@.len(),
                forall|k: int| 0 <= k < gq.len() ==> gq[k] == (#[trigger] queue@[k])@,
                gm.len() == missing@.len(),
                forall|k: int| 0 <= k < gm.len() ==> gm[k] == (#[trigger] missing@[k])@,
                head <= queue@.len(),
                total == story_walk(self@),
                vs + walk(ks, gq.subrange(head as int, gq.len() as int), emitted@, gm) == total,
                header == "-> "@ + self@.0 + "\n"@,
                out@ == header + visits_text(ks, vs),
                forall|i: int| 0 <= i < n ==> emitted@[i] == vs.contains(Visit::Found(i)),
            decreases count_false(emitted@), queue@.len() - head,
        {
            let ghost q = gq.subrange(head as int, gq.len() as int);
            let ghost rest = gq.subrange(head as int + 1, gq.len() as int);
            assert(q.drop_first() =~= rest);
            let name = queue[head].clone();
            head = head + 1;
            proof {
                lemma_find_index(ks, name@);
            }
            match self.position(&name) {
                Some(i) => {
                    if !emitted[i] {
                        let ghost e0 = emitted@;
                        let ghost vs0 = vs;
                        proof {
                            lemma_count_false_update(e0, i as int);
                        }
                        emitted.set(i, true);
                        self.write_section(&mut out, i);
                        proof {
                            vs = vs.push(Visit::Found(i as int));
                            assert(vs.drop_last() =~= vs0);
                        }
                        let knot = &self.knots[i].1;
                        let ghost tg = targets(ks[i as int].1.1);
                        let ghost gq0 = gq;
                        let mut c: usize = 0;
                        while c < knot.choices.len()
                            invariant
                                knot == &self.knots@[i as int].1,
                                ks == self@.1,
                                i < ks.len(),
                                tg == targets(ks[i as int].1.1),
                                c <= knot.choices@.len(),
                                gq.len() == queue@.len(),
                                forall|k: int| 0 <= k < gq.len() ==> gq[k] == (#[trigger] queue@[k])@,
                                gq == gq0 + tg.take(c as int),
                            decreases knot.choices@.len() - c,
                        {
                            queue.push(knot.choices[c].1.0.clone());
                            proof {
                                gq = gq.push(knot.choices@[c as int].1@);
                                assert(tg.take(c as int + 1) =~= tg.take(c as int).push(
                                    knot.choices@[c as int].1@,
                                ));
                                assert(gq =~= gq0 + tg.take(c as int + 1));
                            }
                            c = c + 1;
                        }
                        proof {
                            assert(tg.take(tg.len() as int) =~= tg);
                            assert(gq.subrange(head as int, gq.len() as int) =~= rest + tg);
                            assert(seq![Visit::Found(i as int)] + walk(ks, rest + tg, emitted@, gm)
                                == walk(ks, q, e0, gm));
                            assert(vs + walk(ks, rest + tg, emitted@, gm) =~= vs0 + walk(
                                ks,
                                q,
                                e0,
                                gm,
                            ));
                            assert forall|j: int| 0 <= j < n implies emitted@[j] == vs.contains(
                                Visit::Found(j),
                            ) by {
                                if vs0.contains(Visit::Found(j)) {
                                    let w = choose|w: int| 0 <= w < vs0.len() && vs0[w] == Visit::Found(j);
                                    assert(vs[w] == Visit::Found(j));
                                }
                                if j == i {
                                    assert(vs[vs.len() - 1] == Visit::Found(j));
                                } else if vs.contains(Visit::Found(j)) {
                                    let w = choose|w: int| 0 <= w < vs.len() && vs[w] == Visit::Found(j);
                                    assert(w < vs0.len());
                                    assert(vs0[w] == Visit::Found(j));
                                }
                            }
                        }
                    } else {
                        proof {
                            assert(gq.subrange(head as int, gq.len() as int) =~= rest);
                        }
                    }
                },
                None => {
                    let known = contains_name(&missing, &name);
                    proof {
                        if known {
                            let k = choose|k: int| 0 <= k < missing@.len() && missing@[k]@ == name@;
                            assert(gm[k] == name@);
                        } else {
                            assert forall|k: int| 0 <= k < gm.len() implies gm[k] != name@ by {
                                assert(gm[k] == missing@[k]@);
                            }
                        }
                        assert(gm.contains(name@) == known);
                    }
                    if !known {
                        let ghost vs0 = vs;
                        let ghost gm0 = gm;
                        out.append("=== ");
                        out.append(name.as_str());
                        out.append(" ===\n");
                        out.append("// knot not found\n");
                        missing.push(name);
                        proof {
                            gm = gm.push(missing@.last()@);
                            vs = vs.push(Visit::Missing(missing@.last()@));
                            assert(vs.drop_last() =~= vs0);
                            assert(gq.subrange(head as int, gq.len() as int) =~= rest);
                            assert(vs + walk(ks, rest, emitted@, gm) =~= vs0 + walk(ks, q, emitted@, gm0));
                            assert forall|j: int| 0 <= j < n implies emitted@[j] == vs.contains(
                                Visit::Found(j),
                            ) by {
                                if vs0.contains(Visit::Found(j)) {
                                    let w = choose|w: int| 0 <= w < vs0.len() && vs0[w] == Visit::Found(j);
                                    assert(vs[w] == Visit::Found(j));
                                }
                                if vs.contains(Visit::Found(j)) {
                                    let w = choose|w: int| 0 <= w < vs.len() && vs[w] == Visit::Found(j);
                                    assert(w < vs0.len());
                                    assert(vs0[w] == Visit::Found(j));
                                }
                            }
                        }
                    } else {
                        proof {
                            assert(gq.subrange(head as int, gq.len() as int) =~= rest);
                        }
                    }
                },
            }
        }
        proof {
            assert(gq.subrange(head as int, gq.len() as int) =~= Seq::<Seq<char>>::empty());
            assert(vs =~= total);
            assert(emitted@ =~= reached(self@));
        }
        let mut left: Vec<usize> = Vec::new();
        let mut i: usize = 0;
        while i < n
            invariant
                i <= n,
                n == emitted@.len(),
                left@.map_values(|x: usize| x as int) == unmarked(emitted@.take(i as int)),
                forall|k: int| 0 <= k < left@.len() ==> left@[k] < n,
            decreases n - i,
        {
            assert(emitted@.take(i as int + 1).drop_last() =~= emitted@.take(i as int));
            if !emitted[i] {
                let ghost l0 = left@;
                left.push(i);
                assert(left@.map_values(|x: usize| x as int) =~= l0.map_values(|x: usize| x as int).push(i as int));
            }
            i = i + 1;
        }
        proof {
            assert(emitted@.take(n as int) =~= emitted@);
        }
        if left.len() > 0 {
            out.append("// Some knots are unreachable:\n");
            let ghost mid = out@;
            let ghost lv = left@.map_values(|x: usize| x as int);
            let mut k: usize = 0;
            while k < left.len()
                invariant
                    ks == self@.1,
                    n == ks.len(),
                    lv == left@.map_values(|x: usize| x as int),
                    forall|j: int| 0 <= j < left@.len() ==> left@[j] < n,
                    k <= left@.len(),
                    out@ == mid + sections_text(ks, lv.take(k as int)),
                decreases left@.len() - k,
            {
                assert(lv.take(k as int + 1).drop_last() =~= lv.take(k as int));
                self.write_section(&mut out, left[k]);
                k = k + 1;
            }
            assert(lv.take(left@.len() as int) =~= lv);
        }
        out
    }
}

/// The walk emits only knots that it had not emitted, each at most once.
proof fn lemma_walk_once(ks: Entries, queue: Seq<Seq<char>>, emitted: Seq<bool>, missing: Seq<Seq<char>>)
    ensures
        forall|w: int|
            0 <= w < walk(ks, queue, emitted, missing).len() && (#[trigger] walk(ks, queue, emitted, missing)[w]) is Found
                ==> 0 <= walk(ks, queue, emitted, missing)[w]->Found_0 < emitted.len()
                && !emitted[walk(ks, queue, emitted, missing)[w]->Found_0],
        forall|a: int, b: int|
            0 <= a < b < walk(ks, queue, emitted, missing).len() && (#[trigger] walk(ks, queue, emitted, missing)[a]) is Found
                ==> walk(ks, queue, emitted, missing)[a] != #[trigger] walk(ks, queue, emitted, missing)[b],
    decreases count_false(emitted), queue.len(),
{
    if queue.len() > 0 {
        let name = queue[0];
        let rest = queue.drop_first();
        let i = find_index(ks, name);
        let vs = walk(ks, queue, emitted, missing);
        if 0 <= i < emitted.len() {
            if !emitted[i] {
                let e2 = emitted.update(i, true);
                let q2 = rest + targets(ks[i].1.1);
                lemma_count_false_update(emitted, i);
                lemma_walk_once(ks, q2, e2, missing);
                let tail = walk(ks, q2, e2, missing);
                assert(vs == seq![Visit::Found(i)] + tail);
                assert forall|w: int| 0 <= w < vs.len() && (#[trigger] vs[w]) is Found implies 0
                    <= vs[w]->Found_0 < emitted.len() && !emitted[vs[w]->Found_0] by {
                    if w > 0 {
                        assert(vs[w] == tail[w - 1]);
                    }
                }
                assert forall|a: int, b: int| 0 <= a < b < vs.len() && (#[trigger] vs[a]) is Found
                    implies vs[a] != #[trigger] vs[b] by {
                    assert(vs[b] == tail[b - 1]);
                    if a > 0 {
                        assert(vs[a] == tail[a - 1]);
                    } else if tail[b - 1] is Found {
                        assert(!e2[tail[b - 1]->Found_0]);
                    }
                }
            } else {
                lemma_walk_once(ks, rest, emitted, missing);
            }
        } else if i < 0 && !missing.contains(name) {
            lemma_walk_once(ks, rest, emitted, missing.push(name));
            let tail = walk(ks, rest, emitted, missing.push(name));
            assert(vs == seq![Visit::Missing(name)] + tail);
            assert forall|w: int| 0 <= w < vs.len() && (#[trigger] vs[w]) is Found implies 0
                <= vs[w]->Found_0 < emitted.len() && !emitted[vs[w]->Found_0] by {
                assert(vs[w] == tail[w - 1]);
            }
            assert forall|a: int, b: int| 0 <= a < b < vs.len() && (#[trigger] vs[a]) is Found
                implies vs[a] != #[trigger] vs[b] by {
                assert(vs[a] == tail[a - 1]);
                assert(vs[b] == tail[b - 1]);
            }
        } else {
            lemma_walk_once(ks, rest, emitted, missing);
        }
    }
}

/// `unmarked` lists, in increasing order, exactly the unmarked positions.
proof fn lemma_unmarked(done: Seq<bool>)
    ensures
        forall|x: int| #[trigger] unmarked(done).contains(x) <==> 0 <= x < done.len() && !done[x],
        forall|a: int, b: int|
            0 <= a < b < unmarked(done).len() ==> #[trigger] unmarked(done)[a] < #[trigger] unmarked(done)[b],
        forall|a: int| 0 <= a < unmarked(done).len() ==> 0 <= #[trigger] unmarked(done)[a] < done.len(),
    decreases done.len(),
{
    if done.len() > 0 {
        let d = done.drop_last();
        lemma_unmarked(d);
        let u = unmarked(d);
        assert forall|x: int| 0 <= x < d.len() implies d[x] == done[x] by {}
        if !done.last() {
            let v = u.push(done.len() - 1);
            assert forall|x: int| #[trigger] v.contains(x) <==> 0 <= x < done.len() && !done[x] by {
                if v.contains(x) && x != done.len() - 1 {
                    let w = choose|w: int| 0 <= w < v.len() && v[w] == x;
                    assert(u[w] == x);
                    assert(u.contains(x));
                }
                if 0 <= x < done.len() && !done[x] {
                    if x == done.len() - 1 {
                        assert(v[u.len() as int] == x);
                    } else {
                        assert(u.contains(x));
                        let w = choose|w: int| 0 <= w < u.len() && u[w] == x;
                        assert(v[w] == x);
                    }
                }
            }
            assert forall|a: int, b: int| 0 <= a < b < v.len() implies #[trigger] v[a] < #[trigger] v[b] by {
                if b == v.len() - 1 {
                    assert(v[a] == u[a]);
                } else {
                    assert(v[a] == u[a] && v[b] == u[b]);
                }
            }
            assert forall|a: int| 0 <= a < v.len() implies 0 <= #[trigger] v[a] < done.len() by {
                if a < u.len() {
                    assert(v[a] == u[a]);
                }
            }
        }
    }
}

/// However the choices of a story loop back on each other, its walk emits
/// every knot at most once, and only knots that the story holds.
pub proof fn lemma_walk_emits_once(s: Story)
    ensures
        forall|w: int|
            0 <= w < story_walk(s@).len() && (#[trigger] story_walk(s@)[w]) is Found ==> 0
                <= story_walk(s@)[w]->Found_0 < s@.1.len(),
        forall|a: int, b: int|
            0 <= a < b < story_walk(s@).len() && (#[trigger] story_walk(s@)[a]) is Found
                ==> story_walk(s@)[a] != #[trigger] story_walk(s@)[b],
{
    lemma_walk_once(s@.1, seq![s@.0], Seq::new(s@.1.len(), |i: int| false), Seq::empty());
}

/// Every knot of a story is rendered exactly once: either by the walk from
/// the start, or in the unreachable part, never in both; and no knot is
/// listed twice in the unreachable part.
pub proof fn lemma_each_knot_once(s: Story)
    ensures
        forall|i: int|
            0 <= i < s@.1.len() ==> story_walk(s@).contains(Visit::Found(i)) != #[trigger] unreachable(s@).contains(i),
        forall|i: int| #[trigger] unreachable(s@).contains(i) ==> 0 <= i < s@.1.len(),
        forall|a: int, b: int|
            0 <= a < b < story_walk(s@).len() && (#[trigger] story_walk(s@)[a]) is Found
                ==> story_walk(s@)[a] != #[trigger] story_walk(s@)[b],
        unreachable(s@).no_duplicates(),
{
    lemma_walk_emits_once(s);
    lemma_unmarked(reached(s@));
    let u = unreachable(s@);
    assert forall|a: int, b: int| 0 <= a < u.len() && 0 <= b < u.len() && a != b implies u[a] != u[b] by {
        if a < b {
            assert(u[a] < u[b]);
        } else {
            assert(u[b] < u[a]);
        }
    }
}

/// A knot without choices ends with the terminal divert and has no choice
/// line.
pub proof fn lemma_terminal_marker(k: KnotView)
    requires
        k.1.len() == 0,
    ensures
        knot_text(k) == text_part(k.0) + "-> END\n"@,
{
}

} // verus!
