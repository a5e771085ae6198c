//! The action prompt an opinion leader is asked with.
//!
//! The prompt gives the agent's name, bio, current opinion, its three most
//! recent memories (newest first) and its recommended feed, then asks for
//! one action in the reply format that [`crate::parse::parse_action`] reads.
use vstd::prelude::*;

use crate::text::{decimal, push_decimal, push_str};
use crate::world::{posts_view, Post, PostView};

verus! {

/// The marker that opens the feed listing.
pub open spec fn feed_header() -> Seq<char> {
    "post_index | author_id | content"@
}

/// The line that opens a non-empty feed listing.
pub open spec fn feed_intro() -> Seq<char> {
    "Your recommended feed (post_index | author_id | content):\n"@
}

/// The opening of the prompt, up to the agent's name.
pub open spec fn intro_text() -> Seq<char> {
    "You are an agent on a social media platform. Decide your next single action.\n\nYour name: "@
}

/// The closing instructions: think, then reply in the fixed format.
pub open spec fn instructions_text() -> Seq<char> {
    "Think step by step, then choose exactly one action. Reply in this exact format:\nTHOUGHT: <one sentence>\nACTION: <post|repost|like|follow|none>\nTARGET: <post_index for repost/like/follow, or - for post/none>\nCONTENT: <text for post, or - otherwise>\n"@
}

/// The values of a list of strings.
pub open spec fn strings_view(v: Seq<String>) -> Seq<Seq<char>> {
    v.map_values(|s: String| s@)
}

/// How many memories the prompt shows.
pub open spec fn shown_memories(mem: Seq<Seq<char>>) -> nat {
    if mem.len() < 3 {
        mem.len()
    } else {
        3
    }
}

/// The first `j` memory lines, newest memory first.
pub open spec fn memory_lines(mem: Seq<Seq<char>>, j: nat) -> Seq<char>
    decreases j,
{
    if j == 0 {
        seq![]
    } else {
        memory_lines(mem, (j - 1) as nat) + "- "@ + mem[mem.len() - j] + "\n"@
    }
}

/// The memory section.
pub open spec fn memory_section(mem: Seq<Seq<char>>) -> Seq<char> {
    if mem.len() == 0 {
        "Your recent memory: (none)\n\n"@
    } else {
        "Your recent memory:\n"@ + memory_lines(mem, shown_memories(mem)) + "\n"@
    }
}

/// The feed line of post `i`.
pub open spec fn feed_line(i: usize, p: PostView) -> Seq<char> {
    "["@ + decimal(i as nat) + "] author="@ + decimal(p.author as nat) + " | "@ + p.content + "\n"@
}

/// The lines of the first `j` feed entries (entries that are not posts are
/// skipped).
pub open spec fn feed_lines(feed: Seq<usize>, posts: Seq<PostView>, j: nat) -> Seq<char>
    decreases j,
{
    if j == 0 {
        seq![]
    } else {
        let i = feed[j - 1];
        feed_lines(feed, posts, (j - 1) as nat) + if (i as int) < posts.len() {
            feed_line(i, posts[i as int])
        } else {
            seq![]
        }
    }
}

/// Some entry of the feed is a post.
pub open spec fn feed_visible(feed: Seq<usize>, posts: Seq<PostView>) -> bool {
    exists|j: int| 0 <= j < feed.len() && (#[trigger] feed[j] as int) < posts.len()
}

/// The feed section.
pub open spec fn feed_section(feed: Seq<usize>, posts: Seq<PostView>) -> Seq<char> {
    if feed_visible(feed, posts) {
        feed_intro() + feed_lines(feed, posts, feed.len()) + "\n"@
    } else {
        "Your recommended feed is empty.\n\n"@
    }
}

/// Everything before the feed section.
pub open spec fn profile_section(name: Seq<char>, bio: Seq<char>, opinion: Seq<char>, mem: Seq<Seq<char>>) -> Seq<char> {
    intro_text() + name + "\nYour bio: "@ + bio + "\nYour current opinion (-1=against, +1=in favor): "@
        + opinion + "\n\n"@ + memory_section(mem)
}

/// The whole prompt.
pub open spec fn prompt_text(
    name: Seq<char>,
    bio: Seq<char>,
    opinion: Seq<char>,
    mem: Seq<Seq<char>>,
    feed: Seq<usize>,
    posts: Seq<PostView>,
) -> Seq<char> {
    profile_section(name, bio, opinion, mem) + feed_section(feed, posts) + instructions_text()
}

/// Builds the action prompt of an agent.
///
/// `opinion` is the agent's opinion written with two decimals; `feed`
/// holds post indices as the recommender ranked them (indices that are not
/// posts are left out).
pub fn action_prompt(
    name: &str,
    bio: &str,
    opinion: &str,
    memory: &Vec<String>,
    feed: &Vec<usize>,
    posts: &Vec<Post>,
) -> (r: String)
    ensures
        r@ == prompt_text(name@, bio@, opinion@, strings_view(memory@), feed@, posts_view(posts@)),
{
    let ghost mem = strings_view(memory@);
    let ghost pv = posts_view(posts@);
    let mut s = String::new();
    push_str(&mut s, "You are an agent on a social media platform. Decide your next single action.\n\nYour name: ");
    push_str(&mut s, name);
    push_str(&mut s, "\nYour bio: ");
    push_str(&mut s, bio);
    push_str(&mut s, "\nYour current opinion (-1=against, +1=in favor): ");
    push_str(&mut s, opinion);
    push_str(&mut s, "\n\n");
    let ghost head = s@;
    assert(head =~= intro_text() + name@ + "\nYour bio: "@ + bio@
        + "\nYour current opinion (-1=against, +1=in favor): "@ + opinion@ + "\n\n"@);

    let n = memory.len();
    if n == 0 {
        push_str(&mut s, "Your recent memory: (none)\n\n");
    } else {
        push_str(&mut s, "Your recent memory:\n");
        let ghost start = s@;
        let shown = if n < 3 {
            n
        } else {
            3
        };
        let mut j: usize = 0;
        while j < shown
            invariant
                0 <= j <= shown <= n == memory.len(),
                shown as nat == shown_memories(mem),
                mem == strings_view(memory@),
                s@ == start + memory_lines(mem, j as nat),
            decreases shown - j,
        {
            push_str(&mut s, "- ");
            push_str(&mut s, memory[n - 1 - j].as_str());
            push_str(&mut s, "\n");
            assert(mem[mem.len() - (j + 1)] == memory@[n - 1 - j]@);
            assert(s@ =~= start + memory_lines(mem, (j + 1) as nat));
            j = j + 1;
        }
        push_str(&mut s, "\n");
    }
    assert(s@ =~= profile_section(name@, bio@, opinion@, mem));
    let ghost profile = s@;

    let mut visible = false;
    let mut j: usize = 0;
    while j < feed.len()
        invariant
            0 <= j <= feed.len(),
            visible == exists|q: int| 0 <= q < j && (#[trigger] feed@[q] as int) < posts.len(),
        decreases feed.len() - j,
    {
        if feed[j] < posts.len() {
            visible = true;
        }
        j = j + 1;
    }
    assert(visible == feed_visible(feed@, pv));
    if visible {
        push_str(&mut s, "Your recommended feed (post_index | author_id | content):\n");
        let ghost start = s@;
        let mut j: usize = 0;
        while j < feed.len()
            invariant
                0 <= j <= feed.len(),
                pv == posts_view(posts@),
                s@ == start + feed_lines(feed@, pv, j as nat),
            decreases feed.len() - j,
        {
            let i = feed[j];
            if i < posts.len() {
                assert(pv[i as int] == posts@[i as int]@);
                push_str(&mut s, "[");
                push_decimal(&mut s, i as u64);
                push_str(&mut s, "] author=");
                push_decimal(&mut s, posts[i].author);
                push_str(&mut s, " | ");
                push_str(&mut s, posts[i].content.as_str());
                push_str(&mut s, "\n");
            }
            assert(s@ =~= start + feed_lines(feed@, pv, (j + 1) as nat));
            j = j + 1;
        }
        push_str(&mut s, "\n");
    } else {
        push_str(&mut s, "Your recommended feed is empty.\n\n");
    }
    assert(s@ =~= profile + feed_section(feed@, pv));
    push_str(&mut s, "Think step by step, then choose exactly one action. Reply in this exact format:\nTHOUGHT: <one sentence>\nACTION: <post|repost|like|follow|none>\nTARGET: <post_index for repost/like/follow, or - for post/none>\nCONTENT: <text for post, or - otherwise>\n");
    s
}

} // verus!
