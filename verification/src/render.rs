//! Rendering a batch of classified commits into a markdown fragment.
//!
//! The fragment opens with a header line naming the revision range and
//! date, then holds one subsection per registry entry, in registry order,
//! listing the commits that carry that entry's type tag in their input
//! order. Registry entries that match no commit produce no subsection, and
//! commits whose tag matches no registry entry are dropped.

use vstd::prelude::*;

verus! {

/// One pre-classified commit: a type tag and a pre-rendered markdown body.
pub struct CommitRecord {
    pub tag: String,
    pub body: String,
}

/// One entry of the commit type registry: a type tag and the title of the
/// section that collects commits carrying it. The entry's position in the
/// registry is its section's position in the rendered fragment.
pub struct RegistryEntry {
    pub tag: String,
    pub title: String,
}

/// The commits of `commits` whose tag is `tag`, in their input order.
pub open spec fn matching(commits: Seq<CommitRecord>, tag: Seq<char>) -> Seq<CommitRecord>
    decreases commits.len(),
{
    if commits.len() == 0 {
        Seq::empty()
    } else {
        let rest = matching(commits.drop_last(), tag);
        if commits.last().tag@ == tag {
            rest.push(commits.last())
        } else {
            rest
        }
    }
}

/// The bodies of a group of commits, each followed by a newline.
pub open spec fn bodies(group: Seq<CommitRecord>) -> Seq<char>
    decreases group.len(),
{
    if group.len() == 0 {
        Seq::empty()
    } else {
        bodies(group.drop_last()) + group.last().body@ + "\n"@
    }
}

/// The subsection for one registry entry: empty when no commit carries the
/// entry's tag, else a `### <title>` heading followed by the matching
/// commits' bodies.
pub open spec fn section_text(entry: RegistryEntry, commits: Seq<CommitRecord>) -> Seq<char> {
    if matching(commits, entry.tag@).len() == 0 {
        Seq::empty()
    } else {
        "\n### "@ + entry.title@ + "\n\n"@ + bodies(matching(commits, entry.tag@))
    }
}

/// All subsections, concatenated in registry order.
pub open spec fn sections(commits: Seq<CommitRecord>, registry: Seq<RegistryEntry>) -> Seq<char>
    decreases registry.len(),
{
    if registry.len() == 0 {
        Seq::empty()
    } else {
        sections(commits, registry.drop_last()) + section_text(registry.last(), commits)
    }
}

/// The fragment's header line: the short forms (first six characters) of
/// the two revision identifiers and the display date.
pub open spec fn header_line(from: Seq<char>, to: Seq<char>, date: Seq<char>) -> Seq<char> {
    "\n## "@ + from.take(6) + ".."@ + to.take(6) + " - "@ + date + "\n\n"@
}

/// The whole rendered fragment.
pub open spec fn rendered(
    from: Seq<char>,
    to: Seq<char>,
    date: Seq<char>,
    commits: Seq<CommitRecord>,
    registry: Seq<RegistryEntry>,
) -> Seq<char> {
    header_line(from, to, date) + sections(commits, registry)
}

/// A changelog fragment's inputs: a revision pair rendered as hexadecimal
/// strings, a display date, and the batch of classified commits it covers.
pub struct Changelog {
    pub from: String,
    pub to: String,
    pub date: String,
    pub commits: Vec<CommitRecord>,
}

/// Extending the commit sequence by one commit extends each tag's group by
/// that commit exactly when it carries the tag.
pub proof fn lemma_matching_take_step(commits: Seq<CommitRecord>, tag: Seq<char>, j: int)
    requires
        0 <= j < commits.len(),
    ensures
        matching(commits.take(j + 1), tag) == if commits[j].tag@ == tag {
            matching(commits.take(j), tag).push(commits[j])
        } else {
            matching(commits.take(j), tag)
        },
{
    let pre = commits.take(j + 1);
    assert(pre.drop_last() =~= commits.take(j));
    assert(pre.last() == commits[j]);
}

/// Extending the registry by one entry appends that entry's subsection.
pub proof fn lemma_sections_take_step(
    commits: Seq<CommitRecord>,
    registry: Seq<RegistryEntry>,
    k: int,
)
    requires
        0 <= k < registry.len(),
    ensures
        sections(commits, registry.take(k + 1)) == sections(commits, registry.take(k))
            + section_text(registry[k], commits),
{
    let pre = registry.take(k + 1);
    assert(pre.drop_last() =~= registry.take(k));
    assert(pre.last() == registry[k]);
}

/// Every commit in a tag's group carries that tag; a commit never appears
/// in the subsection of a foreign tag, and one whose tag no registry entry
/// holds appears in no subsection at all.
pub proof fn lemma_matching_tag(commits: Seq<CommitRecord>, tag: Seq<char>)
    ensures
        forall|k: int|
            0 <= k < matching(commits, tag).len() ==> matching(commits, tag)[k].tag@ == tag,
    decreases commits.len(),
{
    if commits.len() > 0 {
        lemma_matching_tag(commits.drop_last(), tag);
        let rest = matching(commits.drop_last(), tag);
        assert forall|k: int| 0 <= k < matching(commits, tag).len() implies matching(
            commits,
            tag,
        )[k].tag@ == tag by {
            if k < rest.len() {
                assert(matching(commits, tag)[k] == rest[k]);
            } else {
                assert(matching(commits, tag)[k] == commits.last());
            }
        }
    }
}

/// Subsections concatenate registry piece by registry piece: the order of
/// subsections in the output is the registry's iteration order.
pub proof fn lemma_sections_concat(
    commits: Seq<CommitRecord>,
    r1: Seq<RegistryEntry>,
    r2: Seq<RegistryEntry>,
)
    ensures
        sections(commits, r1 + r2) == sections(commits, r1) + sections(commits, r2),
    decreases r2.len(),
{
    if r2.len() == 0 {
        assert(r1 + r2 =~= r1);
        assert(sections(commits, r1) + sections(commits, r2) =~= sections(commits, r1));
    } else {
        lemma_sections_concat(commits, r1, r2.drop_last());
        assert((r1 + r2).drop_last() =~= r1 + r2.drop_last());
        assert((r1 + r2).last() == r2.last());
        assert(sections(commits, r1) + sections(commits, r2) =~= sections(commits, r1) + (sections(
            commits,
            r2.drop_last(),
        ) + section_text(r2.last(), commits)));
    }
}

/// Section order comes from the registry alone: two commit sequences that
/// give every registry tag the same group render to the same subsections,
/// however the commits were ordered between tags.
pub proof fn lemma_sections_from_groups(
    c1: Seq<CommitRecord>,
    c2: Seq<CommitRecord>,
    registry: Seq<RegistryEntry>,
)
    requires
        forall|k: int|
            0 <= k < registry.len() ==> matching(c1, #[trigger] registry[k].tag@) == matching(
                c2,
                registry[k].tag@,
            ),
    ensures
        sections(c1, registry) == sections(c2, registry),
    decreases registry.len(),
{
    if registry.len() > 0 {
        assert forall|k: int| 0 <= k < registry.drop_last().len() implies matching(
            c1,
            #[trigger] registry.drop_last()[k].tag@,
        ) == matching(c2, registry.drop_last()[k].tag@) by {
            assert(registry.drop_last()[k] == registry[k]);
        }
        lemma_sections_from_groups(c1, c2, registry.drop_last());
        assert(registry.last() == registry[registry.len() - 1]);
        assert(matching(c1, registry.last().tag@) == matching(c2, registry.last().tag@));
    }
}

/// The position a commit's body takes inside its tag's subsection: the
/// number of earlier commits that carry the same tag.
pub open spec fn section_position(commits: Seq<CommitRecord>, tag: Seq<char>, j: int) -> int {
    matching(commits.take(j), tag).len() as int
}

/// A commit whose tag is `tag` stands in the tag's group, at its section
/// position.
pub proof fn lemma_matching_position(commits: Seq<CommitRecord>, tag: Seq<char>, j: int)
    requires
        0 <= j < commits.len(),
        commits[j].tag@ == tag,
    ensures
        0 <= section_position(commits, tag, j) < matching(commits, tag).len(),
        matching(commits, tag)[section_position(commits, tag, j)] == commits[j],
    decreases commits.len(),
{
    if j == commits.len() - 1 {
        assert(commits.take(j) =~= commits.drop_last());
        assert(commits.last() == commits[j]);
    } else {
        lemma_matching_position(commits.drop_last(), tag, j);
        assert(commits.drop_last().take(j) =~= commits.take(j));
        assert(commits.drop_last()[j] == commits[j]);
    }
}

/// Groups only grow as the commit sequence is extended.
pub proof fn lemma_matching_len_monotone(commits: Seq<CommitRecord>, tag: Seq<char>, a: int, b: int)
    requires
        0 <= a <= b <= commits.len(),
    ensures
        matching(commits.take(a), tag).len() <= matching(commits.take(b), tag).len(),
    decreases b - a,
{
    if a < b {
        lemma_matching_len_monotone(commits, tag, a, b - 1);
        lemma_matching_take_step(commits, tag, b - 1);
    }
}

/// Within-section stability: two commits carrying the same tag stand in
/// that tag's subsection in the same relative order they had in the input.
pub proof fn lemma_within_section_stability(
    commits: Seq<CommitRecord>,
    tag: Seq<char>,
    j1: int,
    j2: int,
)
    requires
        0 <= j1 < j2 < commits.len(),
        commits[j1].tag@ == tag,
        commits[j2].tag@ == tag,
    ensures
        0 <= section_position(commits, tag, j1) < section_position(commits, tag, j2) < matching(
            commits,
            tag,
        ).len(),
        matching(commits, tag)[section_position(commits, tag, j1)] == commits[j1],
        matching(commits, tag)[section_position(commits, tag, j2)] == commits[j2],
{
    lemma_matching_position(commits, tag, j1);
    lemma_matching_position(commits, tag, j2);
    lemma_matching_take_step(commits, tag, j1);
    lemma_matching_len_monotone(commits, tag, j1 + 1, j2);
}

/// Completeness modulo taxonomy: a commit whose tag some registry entry
/// holds stands in that entry's group, at its section position, and in no
/// other entry's group.
pub proof fn lemma_completeness(
    commits: Seq<CommitRecord>,
    registry: Seq<RegistryEntry>,
    j: int,
    k: int,
)
    requires
        0 <= j < commits.len(),
        0 <= k < registry.len(),
        commits[j].tag@ == registry[k].tag@,
        forall|k1: int, k2: int|
            0 <= k1 < k2 < registry.len() ==> registry[k1].tag@ != registry[k2].tag@,
    ensures
        0 <= section_position(commits, registry[k].tag@, j) < matching(
            commits,
            registry[k].tag@,
        ).len(),
        matching(commits, registry[k].tag@)[section_position(commits, registry[k].tag@, j)]
            == commits[j],
        forall|k2: int|
            0 <= k2 < registry.len() && k2 != k ==> !matching(
                commits,
                #[trigger] registry[k2].tag@,
            ).contains(commits[j]),
{
    lemma_matching_position(commits, registry[k].tag@, j);
    assert forall|k2: int| 0 <= k2 < registry.len() && k2 != k implies !matching(
        commits,
        #[trigger] registry[k2].tag@,
    ).contains(commits[j]) by {
        lemma_matching_tag(commits, registry[k2].tag@);
        assert(registry[k2].tag@ != registry[k].tag@);
    }
}

/// A commit whose tag no registry entry holds appears in no entry's group:
/// it is dropped from the rendered fragment.
pub proof fn lemma_unknown_tag_dropped(
    commits: Seq<CommitRecord>,
    registry: Seq<RegistryEntry>,
    j: int,
)
    requires
        0 <= j < commits.len(),
        forall|k: int| 0 <= k < registry.len() ==> #[trigger] registry[k].tag@ != commits[j].tag@,
    ensures
        forall|k: int|
            0 <= k < registry.len() ==> !matching(commits, #[trigger] registry[k].tag@).contains(
                commits[j],
            ),
{
    assert forall|k: int| 0 <= k < registry.len() implies !matching(
        commits,
        #[trigger] registry[k].tag@,
    ).contains(commits[j]) by {
        lemma_matching_tag(commits, registry[k].tag@);
    }
}

impl Changelog {
    /// Render the fragment for this batch of commits against the given
    /// registry. The two revision identifiers must be at least six
    /// characters long, since only their first six characters are shown.
    pub fn markdown(&self, registry: &Vec<RegistryEntry>) -> (out: String)
        requires
            self.from@.len() >= 6,
            self.to@.len() >= 6,
        ensures
            out@ == rendered(self.from@, self.to@, self.date@, self.commits@, registry@),
    {
        let mut out = String::from_str("\n## ");
        out.append(self.from.as_str().substring_char(0, 6));
        out.append("..");
        out.append(self.to.as_str().substring_char(0, 6));
        out.append(" - ");
        out.append(self.date.as_str());
        out.append("\n\n");
        proof {
            assert(self.from@.subrange(0, 6) == self.from@.take(6));
            assert(self.to@.subrange(0, 6) == self.to@.take(6));
            assert(out@ =~= header_line(self.from@, self.to@, self.date@));
        }
        let ghost head = out@;
        let mut k: usize = 0;
        while k < registry.len()
            invariant
                self.from@.len() >= 6,
                self.to@.len() >= 6,
                k <= registry.len(),
                head == header_line(self.from@, self.to@, self.date@),
                out@ == head + sections(self.commits@, registry@.take(k as int)),
            decreases registry.len() - k,
        {
            let entry = &registry[k];
            let ghost before = out@;

            let mut found = false;
            let mut j: usize = 0;
            while j < self.commits.len()
                invariant
                    j <= self.commits.len(),
                    found == (matching(self.commits@.take(j as int), entry.tag@).len() > 0),
                decreases self.commits.len() - j,
            {
                proof {
                    lemma_matching_take_step(self.commits@, entry.tag@, j as int);
                }
                if self.commits[j].tag == entry.tag {
                    found = true;
                }
                j += 1;
            }
            proof {
                assert(self.commits@.take(self.commits@.len() as int) =~= self.commits@);
            }

            if found {
                out.append("\n### ");
                out.append(entry.title.as_str());
                out.append("\n\n");
                let ghost opened = out@;
                proof {
                    assert(opened =~= before + ("\n### "@ + entry.title@ + "\n\n"@));
                    assert(bodies(matching(self.commits@.take(0), entry.tag@)) =~= Seq::<
                        char,
                    >::empty());
                    assert(opened =~= opened + bodies(
                        matching(self.commits@.take(0), entry.tag@),
                    ));
                }
                let mut j: usize = 0;
                while j < self.commits.len()
                    invariant
                        j <= self.commits.len(),
                        out@ == opened + bodies(matching(self.commits@.take(j as int), entry.tag@)),
                    decreases self.commits.len() - j,
                {
                    proof {
                        lemma_matching_take_step(self.commits@, entry.tag@, j as int);
                    }
                    if self.commits[j].tag == entry.tag {
                        out.append(self.commits[j].body.as_str());
                        out.append("\n");
                        proof {
                            let group = matching(self.commits@.take(j as int), entry.tag@);
                            let grown = matching(self.commits@.take(j + 1 as int), entry.tag@);
                            assert(grown.drop_last() =~= group);
                            assert(out@ =~= opened + bodies(grown));
                        }
                    }
                    j += 1;
                }
                proof {
                    assert(self.commits@.take(self.commits@.len() as int) =~= self.commits@);
                    assert(out@ =~= before + section_text(registry@[k as int], self.commits@));
                }
            } else {
                proof {
                    assert(out@ =~= before + section_text(registry@[k as int], self.commits@));
                }
            }
            proof {
                lemma_sections_take_step(self.commits@, registry@, k as int);
                assert(out@ =~= head + sections(self.commits@, registry@.take(k + 1 as int)));
            }
            k += 1;
        }
        proof {
            assert(registry@.take(registry@.len() as int) =~= registry@);
        }
        out
    }
}

} // verus!
