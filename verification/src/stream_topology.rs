//! Which device event streams each LP reads, and which channel each LP sends on to each target.
//!
//! Streams are numbered channels first, then one service stream per LP, then one generator
//! stream per flow. An LP reads the channels into it, its own service stream and the generator
//! streams of the flows it sources; it sends to each target LP over at most one channel.

use vstd::prelude::*;

use crate::cuda::{take_words, CudaError, ARENA_META_WORDS, EVENT_WORDS, NONE};
use crate::device_sizing::{
    ACTIVE_STREAM_ENTRY_WORDS, CHANNEL_BATCH_WORDS, LP_STREAM_META_WORDS, OUTBOUND_ENTRY_WORDS,
    OUTBOUND_META_WORDS,
};
use crate::image::SimulationImage;

verus! {

/// `s` ascends strictly.
pub open spec fn spec_ascending(s: Seq<u64>) -> bool {
    forall|a: int, b: int| 0 <= a < b < s.len() ==> s[a] < s[b]
}

/// `s` ascends strictly by target.
pub open spec fn spec_ascending_targets(s: Seq<(u64, u64)>) -> bool {
    forall|a: int, b: int| 0 <= a < b < s.len() ==> s[a].0 < s[b].0
}

/// Stream of the generator of the flow with index `flow`.
pub open spec fn spec_generator_stream(image: SimulationImage, flow: u64) -> int {
    image.channels@.len() + image.nodes@.len() + flow
}

/// Some host runs a generator of a flow that LP `node` sources and whose stream is `stream`.
pub open spec fn spec_sources_generator(image: SimulationImage, node: int, stream: int) -> bool {
    exists|h: int, g: int|
        0 <= h < image.host_states@.len() && 0 <= g < image.host_states@[h].generators@.len()
            && stream == spec_generator_stream(
            image,
            (#[trigger] image.host_states@[h].generators@[g]).flow.0,
        ) && image.flows@[image.host_states@[h].generators@[g].flow.0 as int].source.0 == node
}

/// LP `node` reads stream `stream`: a channel into it, its service stream, or the generator
/// stream of a flow it sources.
pub open spec fn spec_reads_stream(image: SimulationImage, node: int, stream: int) -> bool {
    ||| (0 <= stream < image.channels@.len() && image.channels@[stream].target.0 == node)
    ||| stream == image.channels@.len() + node
    ||| spec_sources_generator(image, node, stream)
}

/// LP `node` sends to `target` over channel `channel`.
pub open spec fn spec_sends(image: SimulationImage, node: int, entry: (u64, u64)) -> bool {
    &&& entry.1 < image.channels@.len()
    &&& image.channels@[entry.1 as int].source.0 == node
    &&& image.channels@[entry.1 as int].target.0 == entry.0
}

/// Two channels join the same source and target LPs.
pub open spec fn spec_parallel_channels(image: SimulationImage) -> bool {
    exists|a: int, b: int|
        0 <= a < b < image.channels@.len() && (#[trigger] image.channels@[a]).source
            == (#[trigger] image.channels@[b]).source && image.channels@[a].target
            == image.channels@[b].target
}

/// Every channel, generator flow and flow source the stream plane indexes lies in range.
pub open spec fn spec_streams_indexable(image: SimulationImage) -> bool {
    &&& forall|c: int|
        0 <= c < image.channels@.len() ==> (#[trigger] image.channels@[c]).source.0
            < image.nodes@.len() && image.channels@[c].target.0 < image.nodes@.len()
    &&& forall|h: int, g: int|
        0 <= h < image.host_states@.len() && 0 <= g < image.host_states@[h].generators@.len()
            ==> (#[trigger] image.host_states@[h].generators@[g]).flow.0 < image.flows@.len()
            && image.flows@[image.host_states@[h].generators@[g].flow.0 as int].source.0
            < image.nodes@.len()
}

fn insert_stream(list: &mut Vec<u64>, value: u64)
    requires
        spec_ascending(old(list)@),
    ensures
        spec_ascending(final(list)@),
        forall|x: u64| #[trigger] final(list)@.contains(x) <==> (old(list)@.contains(x) || x == value),
{
    let mut i: usize = 0;
    while i < list.len() && list[i] < value
        invariant
            i <= list@.len(),
            spec_ascending(list@),
            forall|j: int| 0 <= j < i ==> list@[j] < value,
        decreases list@.len() - i,
    {
        i += 1;
    }
    if i < list.len() && list[i] == value {
        return;
    }
    let ghost before = list@;
    list.insert(i, value);
    assert forall|a: int, b: int| 0 <= a < b < list@.len() implies list@[a] < list@[b] by {
        if b < i {
        } else if b == i {
        } else if a < i {
            assert(before[a] < value);
            assert(value <= before[i as int]);
            assert(before[i as int] <= before[b - 1]);
        } else if a == i {
            assert(value <= before[i as int]);
            assert(before[i as int] <= before[b - 1]);
        } else {
        }
    }
    assert forall|x: u64| #[trigger] list@.contains(x) <==> (before.contains(x) || x == value) by {
        if list@.contains(x) {
            let j = choose|j: int| 0 <= j < list@.len() && list@[j] == x;
            if j < i {
                assert(before[j] == x);
            } else if j > i {
                assert(before[j - 1] == x);
            }
        }
        if before.contains(x) {
            let j = choose|j: int| 0 <= j < before.len() && before[j] == x;
            if j < i {
                assert(list@[j] == x);
            } else {
                assert(list@[j + 1] == x);
            }
        }
        if x == value {
            assert(list@[i as int] == x);
        }
    }
}

/// Inserts `entry` by target; refuses a target already present.
fn insert_outbound(list: &mut Vec<(u64, u64)>, entry: (u64, u64)) -> (inserted: bool)
    requires
        spec_ascending_targets(old(list)@),
    ensures
        spec_ascending_targets(final(list)@),
        inserted <==> !(exists|j: int|
            0 <= j < old(list)@.len() && (#[trigger] old(list)@[j]).0 == entry.0),
        inserted ==> forall|x: (u64, u64)| #[trigger] final(list)@.contains(x) <==> (old(
            list,
        )@.contains(x) || x == entry),
{
    let mut i: usize = 0;
    while i < list.len() && list[i].0 < entry.0
        invariant
            i <= list@.len(),
            spec_ascending_targets(list@),
            forall|j: int| 0 <= j < i ==> list@[j].0 < entry.0,
        decreases list@.len() - i,
    {
        i += 1;
    }
    if i < list.len() && list[i].0 == entry.0 {
        return false;
    }
    let ghost before = list@;
    assert forall|j: int| 0 <= j < before.len() implies (#[trigger] before[j]).0 != entry.0 by {
        if j >= i {
            assert(before[i as int].0 <= before[j].0);
        }
    }
    list.insert(i, entry);
    assert forall|a: int, b: int| 0 <= a < b < list@.len() implies list@[a].0 < list@[b].0 by {
        if b < i {
        } else if b == i {
        } else if a < i {
            assert(before[a].0 < entry.0);
            assert(entry.0 < before[i as int].0);
            assert(before[i as int].0 <= before[b - 1].0);
        } else if a == i {
            assert(entry.0 < before[i as int].0);
            assert(before[i as int].0 <= before[b - 1].0);
        } else {
        }
    }
    assert forall|x: (u64, u64)| #[trigger] list@.contains(x) <==> (before.contains(x) || x == entry) by {
        if list@.contains(x) {
            let j = choose|j: int| 0 <= j < list@.len() && list@[j] == x;
            if j < i {
                assert(before[j] == x);
            } else if j > i {
                assert(before[j - 1] == x);
            }
        }
        if before.contains(x) {
            let j = choose|j: int| 0 <= j < before.len() && before[j] == x;
            if j < i {
                assert(list@[j] == x);
            } else {
                assert(list@[j + 1] == x);
            }
        }
        if x == entry {
            assert(list@[i as int] == x);
        }
    }
    true
}


/// Some generator among hosts before `h`, or among the first `g` generators of host `h`,
/// feeds stream `stream` from a flow that LP `node` sources.
pub open spec fn spec_generator_seen(
    image: SimulationImage,
    node: int,
    h: int,
    g: int,
    stream: int,
) -> bool {
    exists|hh: int, gg: int|
        0 <= hh <= h && hh < image.host_states@.len() && 0 <= gg < image.host_states@[hh].generators@.len()
            && (hh < h || gg < g) && stream == spec_generator_stream(
            image,
            (#[trigger] image.host_states@[hh].generators@[gg]).flow.0,
        ) && image.flows@[image.host_states@[hh].generators@[gg].flow.0 as int].source.0 == node
}

fn streams_of(image: &SimulationImage, node: usize) -> (list: Vec<u64>)
    requires
        spec_streams_indexable(*image),
        node < image.nodes@.len(),
        image.channels@.len() + image.nodes@.len() + image.flows@.len() <= usize::MAX,
    ensures
        spec_ascending(list@),
        forall|stream: u64| #[trigger]
            list@.contains(stream) <==> spec_reads_stream(*image, node as int, stream as int),
{
    let channels = &image.channels;
    let mut list: Vec<u64> = Vec::new();
    let mut c: usize = 0;
    while c < channels.len()
        invariant
            c <= channels@.len(),
            channels@ == image.channels@,
            spec_ascending(list@),
            forall|stream: u64| #[trigger]
                list@.contains(stream) <==> (stream < c && channels@[stream as int].target.0 == node),
        decreases channels@.len() - c,
    {
        if channels[c].target.0 == node as u64 {
            insert_stream(&mut list, c as u64);
        }
        c += 1;
    }
    let service = channels.len() + node;
    insert_stream(&mut list, service as u64);
    let hosts = &image.host_states;
    let mut h: usize = 0;
    while h < hosts.len()
        invariant
            h <= hosts@.len(),
            hosts@ == image.host_states@,
            channels@ == image.channels@,
            service == image.channels@.len() + node,
            spec_streams_indexable(*image),
            node < image.nodes@.len(),
            image.channels@.len() + image.nodes@.len() + image.flows@.len() <= usize::MAX,
            spec_ascending(list@),
            forall|stream: u64| #[trigger]
                list@.contains(stream) <==> ((stream < channels@.len()
                    && channels@[stream as int].target.0 == node) || stream == service
                    || spec_generator_seen(*image, node as int, h as int, 0, stream as int)),
        decreases hosts@.len() - h,
    {
        let generators = &hosts[h].generators;
        let mut g: usize = 0;
        while g < generators.len()
            invariant
                h < hosts@.len(),
                g <= generators@.len(),
                generators@ == image.host_states@[h as int].generators@,
                hosts@ == image.host_states@,
                channels@ == image.channels@,
                service == image.channels@.len() + node,
                spec_streams_indexable(*image),
                node < image.nodes@.len(),
                image.channels@.len() + image.nodes@.len() + image.flows@.len() <= usize::MAX,
                spec_ascending(list@),
                forall|stream: u64| #[trigger]
                    list@.contains(stream) <==> ((stream < channels@.len()
                        && channels@[stream as int].target.0 == node) || stream == service
                        || spec_generator_seen(*image, node as int, h as int, g as int, stream as int)),
            decreases generators@.len() - g,
        {
            let generator = generators[g];
            assert(generator == image.host_states@[h as int].generators@[g as int]);
            let flow = generator.flow.0 as usize;
            let stream = channels.len() + image.nodes.len() + flow;
            let ghost old_list = list@;
            if image.flows[flow].source.0 == node as u64 {
                insert_stream(&mut list, stream as u64);
            }
            assert forall|s: u64| #[trigger] list@.contains(s) <==> ((s < channels@.len()
                && channels@[s as int].target.0 == node) || s == service || spec_generator_seen(
                *image,
                node as int,
                h as int,
                g + 1,
                s as int,
            )) by {
                if spec_generator_seen(*image, node as int, h as int, g + 1, s as int) {
                    let (hh, gg) = choose|hh: int, gg: int|
                        0 <= hh <= h && hh < image.host_states@.len() && 0 <= gg
                            < image.host_states@[hh].generators@.len() && (hh < h || gg < g + 1)
                            && s == spec_generator_stream(
                            *image,
                            (#[trigger] image.host_states@[hh].generators@[gg]).flow.0,
                        ) && image.flows@[image.host_states@[hh].generators@[gg].flow.0 as int].source.0
                            == node;
                    if hh < h || gg < g {
                        assert(spec_generator_seen(*image, node as int, h as int, g as int, s as int));
                    }
                }
                if spec_generator_seen(*image, node as int, h as int, g as int, s as int) {
                    let (hh, gg) = choose|hh: int, gg: int|
                        0 <= hh <= h && hh < image.host_states@.len() && 0 <= gg
                            < image.host_states@[hh].generators@.len() && (hh < h || gg < g)
                            && s == spec_generator_stream(
                            *image,
                            (#[trigger] image.host_states@[hh].generators@[gg]).flow.0,
                        ) && image.flows@[image.host_states@[hh].generators@[gg].flow.0 as int].source.0
                            == node;
                    assert(spec_generator_seen(*image, node as int, h as int, g + 1, s as int));
                }
                if image.flows@[flow as int].source.0 == node && s == stream {
                    assert(spec_generator_seen(*image, node as int, h as int, g + 1, s as int));
                }
            }
            g += 1;
        }
        assert forall|s: u64| #[trigger] list@.contains(s) <==> ((s < channels@.len()
            && channels@[s as int].target.0 == node) || s == service || spec_generator_seen(
            *image,
            node as int,
            h + 1,
            0,
            s as int,
        )) by {
            if spec_generator_seen(*image, node as int, h + 1, 0, s as int) {
                let (hh, gg) = choose|hh: int, gg: int|
                    0 <= hh <= h + 1 && hh < image.host_states@.len() && 0 <= gg
                        < image.host_states@[hh].generators@.len() && (hh < h + 1 || gg < 0)
                        && s == spec_generator_stream(
                        *image,
                        (#[trigger] image.host_states@[hh].generators@[gg]).flow.0,
                    ) && image.flows@[image.host_states@[hh].generators@[gg].flow.0 as int].source.0
                        == node;
                assert(spec_generator_seen(
                    *image,
                    node as int,
                    h as int,
                    generators@.len() as int,
                    s as int,
                ));
            }
            if spec_generator_seen(*image, node as int, h as int, generators@.len() as int, s as int) {
                let (hh, gg) = choose|hh: int, gg: int|
                    0 <= hh <= h && hh < image.host_states@.len() && 0 <= gg
                        < image.host_states@[hh].generators@.len() && (hh < h || gg
                        < generators@.len()) && s == spec_generator_stream(
                        *image,
                        (#[trigger] image.host_states@[hh].generators@[gg]).flow.0,
                    ) && image.flows@[image.host_states@[hh].generators@[gg].flow.0 as int].source.0
                        == node;
                assert(spec_generator_seen(*image, node as int, h + 1, 0, s as int));
            }
        }
        h += 1;
    }
    assert forall|s: u64| #[trigger] list@.contains(s) <==> spec_reads_stream(
        *image,
        node as int,
        s as int,
    ) by {
        if spec_sources_generator(*image, node as int, s as int) {
            let (hh, gg) = choose|hh: int, gg: int|
                0 <= hh < image.host_states@.len() && 0 <= gg < image.host_states@[hh].generators@.len()
                    && s == spec_generator_stream(
                    *image,
                    (#[trigger] image.host_states@[hh].generators@[gg]).flow.0,
                ) && image.flows@[image.host_states@[hh].generators@[gg].flow.0 as int].source.0
                    == node;
            assert(spec_generator_seen(*image, node as int, h as int, 0, s as int));
        }
        if spec_generator_seen(*image, node as int, h as int, 0, s as int) {
            let (hh, gg) = choose|hh: int, gg: int|
                0 <= hh <= h && hh < image.host_states@.len() && 0 <= gg
                    < image.host_states@[hh].generators@.len() && (hh < h || gg < 0) && s
                    == spec_generator_stream(
                    *image,
                    (#[trigger] image.host_states@[hh].generators@[gg]).flow.0,
                ) && image.flows@[image.host_states@[hh].generators@[gg].flow.0 as int].source.0
                    == node;
            assert(spec_sources_generator(*image, node as int, s as int));
        }
    }
    list
}

/// Two of the first `upto` channels leave LP `node` for the same target.
pub open spec fn spec_parallel_from(image: SimulationImage, node: int, upto: int) -> bool {
    exists|a: int, b: int|
        0 <= a < b < upto && (#[trigger] image.channels@[a]).source.0 == node
            && (#[trigger] image.channels@[b]).source.0 == node && image.channels@[a].target
            == image.channels@[b].target
}

fn outbound_of(image: &SimulationImage, node: usize) -> (entries: Option<Vec<(u64, u64)>>)
    ensures
        entries is None <==> spec_parallel_from(*image, node as int, image.channels@.len() as int),
        entries matches Some(list) ==> spec_ascending_targets(list@) && forall|entry: (u64, u64)|
            #[trigger] list@.contains(entry) <==> spec_sends(*image, node as int, entry),
{
    let channels = &image.channels;
    let mut list: Vec<(u64, u64)> = Vec::new();
    let mut c: usize = 0;
    while c < channels.len()
        invariant
            c <= channels@.len(),
            channels@ == image.channels@,
            spec_ascending_targets(list@),
            !spec_parallel_from(*image, node as int, c as int),
            forall|entry: (u64, u64)| #[trigger]
                list@.contains(entry) <==> (entry.1 < c && spec_sends(*image, node as int, entry)),
        decreases channels@.len() - c,
    {
        let channel = channels[c];
        if channel.source.0 == node as u64 {
            let entry = (channel.target.0, c as u64);
            let ghost before = list@;
            if !insert_outbound(&mut list, entry) {
                proof {
                    let j = choose|j: int| 0 <= j < before.len() && (#[trigger] before[j]).0 == entry.0;
                    assert(before.contains(before[j]));
                    let earlier = before[j].1 as int;
                    assert(image.channels@[earlier].target == channel.target);
                    assert(spec_parallel_from(*image, node as int, channels@.len() as int)) by {
                        assert(image.channels@[earlier].source.0 == node);
                        assert(image.channels@[c as int].source.0 == node);
                    }
                }
                return None;
            }
            assert(!spec_parallel_from(*image, node as int, c + 1)) by {
                if spec_parallel_from(*image, node as int, c + 1) {
                    let (a, b) = choose|a: int, b: int|
                        0 <= a < b < c + 1 && (#[trigger] image.channels@[a]).source.0 == node
                            && (#[trigger] image.channels@[b]).source.0 == node
                            && image.channels@[a].target == image.channels@[b].target;
                    if b == c {
                        let e = (image.channels@[a].target.0, a as u64);
                        assert(before.contains(e));
                        let j = choose|j: int| 0 <= j < before.len() && before[j] == e;
                        assert(before[j].0 == entry.0);
                    }
                }
            }
        } else {
            assert(!spec_parallel_from(*image, node as int, c + 1)) by {
                if spec_parallel_from(*image, node as int, c + 1) {
                    let (a, b) = choose|a: int, b: int|
                        0 <= a < b < c + 1 && (#[trigger] image.channels@[a]).source.0 == node
                            && (#[trigger] image.channels@[b]).source.0 == node
                            && image.channels@[a].target == image.channels@[b].target;
                }
            }
        }
        c += 1;
    }
    Some(list)
}

/// The streams each LP reads, ascending, and the channels each LP sends on, ascending by
/// target LP. Refuses stream numbers that overflow `usize`, then two channels that join the
/// same source and target LPs.
pub fn stream_topology(image: &SimulationImage) -> (topology: Result<
    (Vec<Vec<u64>>, Vec<Vec<(u64, u64)>>),
    CudaError,
>)
    requires
        spec_streams_indexable(*image),
    ensures
        image.channels@.len() + image.nodes@.len() > usize::MAX ==> (topology matches Err(
            CudaError::Validation(message),
        ) && message@ == "service stream count overflows usize"@),
        image.channels@.len() + image.nodes@.len() <= usize::MAX && image.channels@.len()
            + image.nodes@.len() + image.flows@.len() > usize::MAX ==> (topology matches Err(
            CudaError::Validation(message),
        ) && message@ == "generator stream count overflows usize"@),
        image.channels@.len() + image.nodes@.len() + image.flows@.len() <= usize::MAX
            && spec_parallel_channels(*image) ==> (topology matches Err(
            CudaError::Validation(message),
        ) && message@ == "stream classification requires one channel per source-target LP pair"@),
        image.channels@.len() + image.nodes@.len() + image.flows@.len() <= usize::MAX
            && !spec_parallel_channels(*image) ==> (topology matches Ok((streams, outbound)) && {
            &&& streams@.len() == image.nodes@.len()
            &&& outbound@.len() == image.nodes@.len()
            &&& forall|node: int|
                0 <= node < image.nodes@.len() ==> {
                    &&& spec_ascending((#[trigger] streams@[node])@)
                    &&& forall|stream: u64|
                        streams@[node]@.contains(stream) <==> spec_reads_stream(
                            *image,
                            node,
                            stream as int,
                        )
                }
            &&& forall|node: int|
                0 <= node < image.nodes@.len() ==> {
                    &&& spec_ascending_targets((#[trigger] outbound@[node])@)
                    &&& forall|entry: (u64, u64)|
                        outbound@[node]@.contains(entry) <==> spec_sends(*image, node, entry)
                }
        }),
{
    let node_count = image.nodes.len();
    let generator_base = match image.channels.len().checked_add(node_count) {
        Some(base) => base,
        None => {
            return Err(CudaError::Validation("service stream count overflows usize".to_owned()));
        },
    };
    if generator_base.checked_add(image.flows.len()).is_none() {
        return Err(CudaError::Validation("generator stream count overflows usize".to_owned()));
    }
    let mut streams: Vec<Vec<u64>> = Vec::new();
    let mut outbound: Vec<Vec<(u64, u64)>> = Vec::new();
    let mut node: usize = 0;
    while node < node_count
        invariant
            node <= node_count,
            node_count == image.nodes@.len(),
            spec_streams_indexable(*image),
            image.channels@.len() + image.nodes@.len() + image.flows@.len() <= usize::MAX,
            streams@.len() == node,
            forall|n: int|
                0 <= n < node ==> {
                    &&& spec_ascending((#[trigger] streams@[n])@)
                    &&& forall|stream: u64|
                        streams@[n]@.contains(stream) <==> spec_reads_stream(*image, n, stream as int)
                },
        decreases node_count - node,
    {
        streams.push(streams_of(image, node));
        node += 1;
    }
    let mut n: usize = 0;
    while n < node_count
        invariant
            n <= node_count,
            node_count == image.nodes@.len(),
            spec_streams_indexable(*image),
            image.channels@.len() + image.nodes@.len() + image.flows@.len() <= usize::MAX,
            outbound@.len() == n,
            forall|k: int| 0 <= k < n ==> !spec_parallel_from(*image, k, image.channels@.len() as int),
            forall|k: int|
                0 <= k < n ==> {
                    &&& spec_ascending_targets((#[trigger] outbound@[k])@)
                    &&& forall|entry: (u64, u64)|
                        outbound@[k]@.contains(entry) <==> spec_sends(*image, k, entry)
                },
        decreases node_count - n,
    {
        match outbound_of(image, n) {
            Some(list) => outbound.push(list),
            None => {
                proof {
                    let (a, b) = choose|a: int, b: int|
                        0 <= a < b < image.channels@.len() && (#[trigger] image.channels@[a]).source.0
                            == n && (#[trigger] image.channels@[b]).source.0 == n
                            && image.channels@[a].target == image.channels@[b].target;
                    assert(image.channels@[a].source == image.channels@[b].source);
                }
                return Err(
                    CudaError::Validation(
                        "stream classification requires one channel per source-target LP pair".to_owned(),
                    ),
                );
            },
        }
        n += 1;
    }
    proof {
        if spec_parallel_channels(*image) {
            let (a, b) = choose|a: int, b: int|
                0 <= a < b < image.channels@.len() && (#[trigger] image.channels@[a]).source
                    == (#[trigger] image.channels@[b]).source && image.channels@[a].target
                    == image.channels@[b].target;
            let k = image.channels@[a].source.0 as int;
            assert(spec_parallel_from(*image, k, image.channels@.len() as int));
        }
    }
    Ok((streams, outbound))
}

// ---------------------------------------------------------------------------------------------
// Stream state plane offsets.
// ---------------------------------------------------------------------------------------------

/// Where each region of the stream state plane starts, and the plane's word count.
#[derive(Clone, Copy, Debug, PartialEq, Eq, Structural)]
pub struct StreamPlaneOffsets {
    pub lp_stream_meta_offset: usize,
    pub lp_stream_ids_offset: usize,
    pub lp_active_ids_offset: usize,
    pub outbound_meta_offset: usize,
    pub outbound_entries_offset: usize,
    pub channel_batch_offset: usize,
    pub staging_channel_offset: usize,
    pub channel_target_offset: usize,
    /// Words of the whole plane, at least one.
    pub state_words: usize,
}

/// Words of all stream lists of the first `upto` LPs.
pub open spec fn spec_stream_ids(streams: Seq<Vec<u64>>, upto: int) -> int
    decreases upto,
{
    if upto <= 0 {
        0
    } else {
        spec_stream_ids(streams, upto - 1) + streams[upto - 1]@.len()
    }
}

/// Words of the active-stream entries of an LP reading `count` streams: one entry per stream and
/// one for its heap, each saturating at `usize::MAX`.
pub open spec fn spec_active_words(count: int) -> int {
    let entries = if count + 1 > usize::MAX { usize::MAX as int } else { count + 1 };
    if entries * ACTIVE_STREAM_ENTRY_WORDS > usize::MAX {
        usize::MAX as int
    } else {
        entries * ACTIVE_STREAM_ENTRY_WORDS
    }
}

/// Active-stream words of the first `upto` LPs.
pub open spec fn spec_active_ids(streams: Seq<Vec<u64>>, upto: int) -> int
    decreases upto,
{
    if upto <= 0 {
        0
    } else {
        spec_active_ids(streams, upto - 1) + spec_active_words(streams[upto - 1]@.len() as int)
    }
}

/// Outbound entries of the first `upto` LPs.
pub open spec fn spec_outbound_entries(outbound: Seq<Vec<(u64, u64)>>, upto: int) -> int
    decreases upto,
{
    if upto <= 0 {
        0
    } else {
        spec_outbound_entries(outbound, upto - 1) + outbound[upto - 1]@.len()
    }
}

/// Sizes, in words and in plane order, of the regions after the ring metadata.
pub open spec fn spec_region_sizes(
    nodes: int,
    ids: int,
    active: int,
    entries: int,
    channels: int,
    staging: int,
) -> Seq<int> {
    seq![
        nodes * LP_STREAM_META_WORDS,
        ids,
        active,
        nodes * OUTBOUND_META_WORDS,
        entries * OUTBOUND_ENTRY_WORDS,
        channels * CHANNEL_BATCH_WORDS,
        staging,
        channels,
    ]
}

/// Sum of the first `upto` sizes.
pub open spec fn spec_size_prefix(sizes: Seq<int>, upto: int) -> int
    decreases upto,
{
    if upto <= 0 {
        0
    } else {
        spec_size_prefix(sizes, upto - 1) + sizes[upto - 1]
    }
}

/// `offsets` is the layout `stream_plane_offsets` gives these inputs: every word count and the
/// plane fit `usize`, and each region starts where the previous one ends.
pub open spec fn spec_offsets_of(
    ring_meta_words: int,
    streams: Seq<Vec<u64>>,
    outbound: Seq<Vec<(u64, u64)>>,
    channel_count: int,
    staging_slots: int,
    o: StreamPlaneOffsets,
) -> bool {
    let nodes = streams.len() as int;
    let ids = spec_stream_ids(streams, nodes);
    let active = spec_active_ids(streams, nodes);
    let entries = spec_outbound_entries(outbound, nodes);
    let sizes = spec_region_sizes(nodes, ids, active, entries, channel_count, staging_slots);
    let end = ring_meta_words + spec_size_prefix(sizes, 8);
    &&& ids <= usize::MAX
    &&& active <= usize::MAX
    &&& entries <= usize::MAX
    &&& end <= usize::MAX
    &&& o.lp_stream_meta_offset == ring_meta_words + spec_size_prefix(sizes, 0)
    &&& o.lp_stream_ids_offset == ring_meta_words + spec_size_prefix(sizes, 1)
    &&& o.lp_active_ids_offset == ring_meta_words + spec_size_prefix(sizes, 2)
    &&& o.outbound_meta_offset == ring_meta_words + spec_size_prefix(sizes, 3)
    &&& o.outbound_entries_offset == ring_meta_words + spec_size_prefix(sizes, 4)
    &&& o.channel_batch_offset == ring_meta_words + spec_size_prefix(sizes, 5)
    &&& o.staging_channel_offset == ring_meta_words + spec_size_prefix(sizes, 6)
    &&& o.channel_target_offset == ring_meta_words + spec_size_prefix(sizes, 7)
    &&& o.state_words == if end >= 1 {
        end
    } else {
        1
    }
}

fn stream_ids(streams: &Vec<Vec<u64>>) -> (total: Option<usize>)
    ensures
        spec_stream_ids(streams@, streams@.len() as int) <= usize::MAX ==> total == Some(
            spec_stream_ids(streams@, streams@.len() as int) as usize,
        ),
        spec_stream_ids(streams@, streams@.len() as int) > usize::MAX ==> total is None,
{
    let mut total: usize = 0;
    let mut k: usize = 0;
    while k < streams.len()
        invariant
            k <= streams@.len(),
            total == spec_stream_ids(streams@, k as int),
        decreases streams@.len() - k,
    {
        match total.checked_add(streams[k].len()) {
            Some(next) => total = next,
            None => {
                proof {
                    lemma_stream_ids_grow(streams@, k + 1, streams@.len() as int);
                }
                return None;
            },
        }
        k += 1;
    }
    Some(total)
}

proof fn lemma_stream_ids_grow(streams: Seq<Vec<u64>>, upto: int, all: int)
    requires
        0 <= upto <= all,
    ensures
        spec_stream_ids(streams, upto) <= spec_stream_ids(streams, all),
    decreases all,
{
    if all > upto {
        lemma_stream_ids_grow(streams, upto, all - 1);
    }
}

proof fn lemma_active_ids_grow(streams: Seq<Vec<u64>>, upto: int, all: int)
    requires
        0 <= upto <= all,
    ensures
        spec_active_ids(streams, upto) <= spec_active_ids(streams, all),
    decreases all,
{
    if all > upto {
        lemma_active_ids_grow(streams, upto, all - 1);
    }
}

proof fn lemma_entries_grow(outbound: Seq<Vec<(u64, u64)>>, upto: int, all: int)
    requires
        0 <= upto <= all,
    ensures
        spec_outbound_entries(outbound, upto) <= spec_outbound_entries(outbound, all),
    decreases all,
{
    if all > upto {
        lemma_entries_grow(outbound, upto, all - 1);
    }
}

fn active_ids(streams: &Vec<Vec<u64>>) -> (total: Option<usize>)
    ensures
        spec_active_ids(streams@, streams@.len() as int) <= usize::MAX ==> total == Some(
            spec_active_ids(streams@, streams@.len() as int) as usize,
        ),
        spec_active_ids(streams@, streams@.len() as int) > usize::MAX ==> total is None,
{
    let mut total: usize = 0;
    let mut k: usize = 0;
    while k < streams.len()
        invariant
            k <= streams@.len(),
            total == spec_active_ids(streams@, k as int),
        decreases streams@.len() - k,
    {
        let entry_count = streams[k].len().saturating_add(1);
        let words = match entry_count.checked_mul(ACTIVE_STREAM_ENTRY_WORDS) {
            Some(words) => words,
            None => usize::MAX,
        };
        assert(words == spec_active_words(streams@[k as int]@.len() as int));
        match total.checked_add(words) {
            Some(next) => total = next,
            None => {
                proof {
                    lemma_active_ids_grow(streams@, k + 1, streams@.len() as int);
                }
                return None;
            },
        }
        k += 1;
    }
    Some(total)
}

fn outbound_entries(outbound: &Vec<Vec<(u64, u64)>>) -> (total: Option<usize>)
    ensures
        spec_outbound_entries(outbound@, outbound@.len() as int) <= usize::MAX ==> total == Some(
            spec_outbound_entries(outbound@, outbound@.len() as int) as usize,
        ),
        spec_outbound_entries(outbound@, outbound@.len() as int) > usize::MAX ==> total is None,
{
    let mut total: usize = 0;
    let mut k: usize = 0;
    while k < outbound.len()
        invariant
            k <= outbound@.len(),
            total == spec_outbound_entries(outbound@, k as int),
        decreases outbound@.len() - k,
    {
        match total.checked_add(outbound[k].len()) {
            Some(next) => total = next,
            None => {
                proof {
                    lemma_entries_grow(outbound@, k + 1, outbound@.len() as int);
                }
                return None;
            },
        }
        k += 1;
    }
    Some(total)
}

/// Lays out the stream state plane after `ring_meta_words` words of ring metadata: per-LP
/// stream metadata, the LPs' stream lists, their active-stream entries, outbound metadata and
/// entries, channel batches, remote staging slots and channel targets, in that order. Refuses a
/// stream-list, active-list or outbound-list word count that overflows `usize`, in that order,
/// then a plane that overflows `usize`.
pub fn stream_plane_offsets(
    ring_meta_words: usize,
    streams: &Vec<Vec<u64>>,
    outbound: &Vec<Vec<(u64, u64)>>,
    channel_count: usize,
    remote_staging_slots: usize,
) -> (offsets: Result<StreamPlaneOffsets, CudaError>)
    requires
        outbound@.len() == streams@.len(),
    ensures
        ({
            let nodes = streams@.len() as int;
            let ids = spec_stream_ids(streams@, nodes);
            let active = spec_active_ids(streams@, nodes);
            let entries = spec_outbound_entries(outbound@, nodes);
            let sizes = spec_region_sizes(
                nodes,
                ids,
                active,
                entries,
                channel_count as int,
                remote_staging_slots as int,
            );
            let end = ring_meta_words + spec_size_prefix(sizes, 8);
            &&& ids > usize::MAX ==> (offsets matches Err(CudaError::Validation(message))
                && message@ == "LP stream-list size overflows usize"@)
            &&& ids <= usize::MAX && active > usize::MAX ==> (offsets matches Err(
                CudaError::Validation(message),
            ) && message@ == "active stream-list size overflows usize"@)
            &&& ids <= usize::MAX && active <= usize::MAX && entries > usize::MAX ==> (offsets matches Err(
                CudaError::Validation(message),
            ) && message@ == "outbound channel-list size overflows usize"@)
            &&& ids <= usize::MAX && active <= usize::MAX && entries <= usize::MAX && end
                > usize::MAX ==> (offsets matches Err(CudaError::Validation(message)) && message@
                == "stream state size overflows usize"@)
            &&& ids <= usize::MAX && active <= usize::MAX && entries <= usize::MAX && end
                <= usize::MAX ==> (offsets matches Ok(o) && spec_offsets_of(
                ring_meta_words as int,
                streams@,
                outbound@,
                channel_count as int,
                remote_staging_slots as int,
                o,
            ))
        }),
{
    let node_count = streams.len();
    proof {
        lemma_stream_ids_grow(streams@, 0, streams@.len() as int);
        lemma_active_ids_grow(streams@, 0, streams@.len() as int);
        lemma_entries_grow(outbound@, 0, outbound@.len() as int);
    }
    let ids = match stream_ids(streams) {
        Some(words) => words,
        None => {
            return Err(CudaError::Validation("LP stream-list size overflows usize".to_owned()));
        },
    };
    let active = match active_ids(streams) {
        Some(words) => words,
        None => {
            return Err(CudaError::Validation("active stream-list size overflows usize".to_owned()));
        },
    };
    let entries = match outbound_entries(outbound) {
        Some(count) => count,
        None => {
            return Err(
                CudaError::Validation("outbound channel-list size overflows usize".to_owned()),
            );
        },
    };
    let ghost sizes = spec_region_sizes(
        node_count as int,
        ids as int,
        active as int,
        entries as int,
        channel_count as int,
        remote_staging_slots as int,
    );
    proof {
        reveal_with_fuel(spec_size_prefix, 9);
        assert(0 <= node_count * LP_STREAM_META_WORDS) by (nonlinear_arith);
        assert(0 <= node_count * OUTBOUND_META_WORDS) by (nonlinear_arith);
        assert(0 <= entries * OUTBOUND_ENTRY_WORDS) by (nonlinear_arith);
        assert(0 <= channel_count * CHANNEL_BATCH_WORDS) by (nonlinear_arith);
    }
    let mut next = ring_meta_words;
    let lp_stream_meta_offset = take_words(&mut next, node_count, LP_STREAM_META_WORDS)?;
    let lp_stream_ids_offset = take_words(&mut next, ids, 1)?;
    let lp_active_ids_offset = take_words(&mut next, active, 1)?;
    let outbound_meta_offset = take_words(&mut next, node_count, OUTBOUND_META_WORDS)?;
    let outbound_entries_offset = take_words(&mut next, entries, OUTBOUND_ENTRY_WORDS)?;
    let channel_batch_offset = take_words(&mut next, channel_count, CHANNEL_BATCH_WORDS)?;
    let staging_channel_offset = take_words(&mut next, remote_staging_slots, 1)?;
    let channel_target_offset = take_words(&mut next, channel_count, 1)?;
    let state_words = if next >= 1 {
        next
    } else {
        1
    };
    Ok(
        StreamPlaneOffsets {
            lp_stream_meta_offset,
            lp_stream_ids_offset,
            lp_active_ids_offset,
            outbound_meta_offset,
            outbound_entries_offset,
            channel_batch_offset,
            staging_channel_offset,
            channel_target_offset,
            state_words,
        },
    )
}

// ---------------------------------------------------------------------------------------------
// Stream state plane contents.
// ---------------------------------------------------------------------------------------------

/// LP `node`'s FEL holds an event.
pub open spec fn spec_has_fel(fel_meta: Seq<u64>, node: int) -> bool {
    fel_meta[node * ARENA_META_WORDS + 3] != 0
}

/// Stream metadata of the first `upto` LPs: where the LP's stream list starts, its length, where
/// its active entries start, and whether its FEL holds an event.
pub open spec fn spec_lp_meta_region(
    streams: Seq<Vec<u64>>,
    fel_meta: Seq<u64>,
    ids_offset: int,
    active_offset: int,
    upto: int,
) -> Seq<u64>
    decreases upto,
{
    if upto <= 0 {
        Seq::empty()
    } else {
        let node = upto - 1;
        spec_lp_meta_region(streams, fel_meta, ids_offset, active_offset, node) + seq![
            (ids_offset + spec_stream_ids(streams, node)) as u64,
            streams[node]@.len() as u64,
            (active_offset + spec_active_ids(streams, node)) as u64,
            if spec_has_fel(fel_meta, node) {
                1u64
            } else {
                0u64
            },
        ]
    }
}

/// The stream lists of the first `upto` LPs, one after another.
pub open spec fn spec_ids_region(streams: Seq<Vec<u64>>, upto: int) -> Seq<u64>
    decreases upto,
{
    if upto <= 0 {
        Seq::empty()
    } else {
        spec_ids_region(streams, upto - 1) + streams[upto - 1]@
    }
}

/// `count` zero words.
pub open spec fn spec_zeros(count: int) -> Seq<u64> {
    Seq::new(count as nat, |i: int| 0u64)
}

/// LP `node`'s active-stream entries: its FEL head first (an unnamed stream and the head's key
/// words) when the FEL holds an event, zero otherwise; the rest zero.
pub open spec fn spec_active_segment(
    streams: Seq<Vec<u64>>,
    fel_meta: Seq<u64>,
    fel_records: Seq<u64>,
    node: int,
) -> Seq<u64> {
    let root = fel_meta[node * ARENA_META_WORDS] * EVENT_WORDS;
    let head = if spec_has_fel(fel_meta, node) {
        seq![NONE] + fel_records.subrange(root, root + 4)
    } else {
        spec_zeros(5)
    };
    head + spec_zeros(spec_active_words(streams[node]@.len() as int) - 5)
}

/// Active-stream entries of the first `upto` LPs.
pub open spec fn spec_active_region(
    streams: Seq<Vec<u64>>,
    fel_meta: Seq<u64>,
    fel_records: Seq<u64>,
    upto: int,
) -> Seq<u64>
    decreases upto,
{
    if upto <= 0 {
        Seq::empty()
    } else {
        spec_active_region(streams, fel_meta, fel_records, upto - 1) + spec_active_segment(
            streams,
            fel_meta,
            fel_records,
            upto - 1,
        )
    }
}

/// Outbound metadata of the first `upto` LPs: where the LP's entries start and how many.
pub open spec fn spec_outbound_meta_region(
    outbound: Seq<Vec<(u64, u64)>>,
    entries_offset: int,
    upto: int,
) -> Seq<u64>
    decreases upto,
{
    if upto <= 0 {
        Seq::empty()
    } else {
        spec_outbound_meta_region(outbound, entries_offset, upto - 1) + seq![
            (entries_offset + OUTBOUND_ENTRY_WORDS * spec_outbound_entries(outbound, upto - 1)) as u64,
            outbound[upto - 1]@.len() as u64,
        ]
    }
}

/// `(target, channel)` words of a list of outbound entries.
pub open spec fn spec_entry_words(entries: Seq<(u64, u64)>, upto: int) -> Seq<u64>
    decreases upto,
{
    if upto <= 0 {
        Seq::empty()
    } else {
        spec_entry_words(entries, upto - 1) + seq![entries[upto - 1].0, entries[upto - 1].1]
    }
}

/// Outbound entries of the first `upto` LPs, one after another.
pub open spec fn spec_outbound_region(outbound: Seq<Vec<(u64, u64)>>, upto: int) -> Seq<u64>
    decreases upto,
{
    if upto <= 0 {
        Seq::empty()
    } else {
        spec_outbound_region(outbound, upto - 1) + spec_entry_words(
            outbound[upto - 1]@,
            outbound[upto - 1]@.len() as int,
        )
    }
}

/// Batch words of the first `upto` channels: no batch and no staged slot yet.
pub open spec fn spec_batch_region(upto: int) -> Seq<u64>
    decreases upto,
{
    if upto <= 0 {
        Seq::empty()
    } else {
        spec_batch_region(upto - 1) + seq![0u64, NONE, NONE, 0u64]
    }
}

/// The stream state plane: ring metadata, then the regions `stream_plane_offsets` places, at
/// least one word.
pub open spec fn spec_stream_plane(
    ring_meta: Seq<u64>,
    streams: Seq<Vec<u64>>,
    outbound: Seq<Vec<(u64, u64)>>,
    fel_meta: Seq<u64>,
    fel_records: Seq<u64>,
    channel_count: int,
    staging_slots: int,
    offsets: StreamPlaneOffsets,
) -> Seq<u64> {
    let nodes = streams.len() as int;
    let words = ring_meta + spec_lp_meta_region(
        streams,
        fel_meta,
        offsets.lp_stream_ids_offset as int,
        offsets.lp_active_ids_offset as int,
        nodes,
    ) + spec_ids_region(streams, nodes) + spec_active_region(streams, fel_meta, fel_records, nodes)
        + spec_outbound_meta_region(outbound, offsets.outbound_entries_offset as int, nodes)
        + spec_outbound_region(outbound, nodes) + spec_batch_region(channel_count) + Seq::new(
        staging_slots as nat,
        |i: int| NONE,
    ) + Seq::new(channel_count as nat, |i: int| i as u64);
    if words.len() == 0 {
        seq![0u64]
    } else {
        words
    }
}

fn push_lp_meta(
    plane: &mut Vec<u64>,
    streams: &Vec<Vec<u64>>,
    fel_meta: &[u64],
    ids_offset: usize,
    active_offset: usize,
)
    requires
        fel_meta@.len() >= streams@.len() * ARENA_META_WORDS,
        ids_offset + spec_stream_ids(streams@, streams@.len() as int) <= usize::MAX,
        active_offset + spec_active_ids(streams@, streams@.len() as int) <= usize::MAX,
    ensures
        final(plane)@ == old(plane)@ + spec_lp_meta_region(
            streams@,
            fel_meta@,
            ids_offset as int,
            active_offset as int,
            streams@.len() as int,
        ),
{
    let ghost base = plane@;
    let meta_words = fel_meta.len();
    let mut ids_cursor = ids_offset;
    let mut active_cursor = active_offset;
    let mut node: usize = 0;
    while node < streams.len()
        invariant
            node <= streams@.len(),
            meta_words == fel_meta@.len(),
            fel_meta@.len() >= streams@.len() * ARENA_META_WORDS,
            ids_offset + spec_stream_ids(streams@, streams@.len() as int) <= usize::MAX,
            active_offset + spec_active_ids(streams@, streams@.len() as int) <= usize::MAX,
            ids_cursor == ids_offset + spec_stream_ids(streams@, node as int),
            active_cursor == active_offset + spec_active_ids(streams@, node as int),
            plane@ == base + spec_lp_meta_region(
                streams@,
                fel_meta@,
                ids_offset as int,
                active_offset as int,
                node as int,
            ),
        decreases streams@.len() - node,
    {
        proof {
            lemma_stream_ids_grow(streams@, node + 1, streams@.len() as int);
            lemma_active_ids_grow(streams@, node + 1, streams@.len() as int);
            lemma_stream_ids_grow(streams@, 0, node as int);
            lemma_active_ids_grow(streams@, 0, node as int);
            assert(node * ARENA_META_WORDS + 3 < fel_meta@.len()) by (nonlinear_arith)
                requires
                    node < streams@.len(),
                    fel_meta@.len() >= streams@.len() * ARENA_META_WORDS,
            ;
        }
        let count = streams[node].len();
        let flag: u64 = if fel_meta[node * ARENA_META_WORDS + 3] != 0 {
            1
        } else {
            0
        };
        let ghost before = plane@;
        plane.push(ids_cursor as u64);
        plane.push(count as u64);
        plane.push(active_cursor as u64);
        plane.push(flag);
        let entry_count = count.saturating_add(1);
        let words = match entry_count.checked_mul(ACTIVE_STREAM_ENTRY_WORDS) {
            Some(words) => words,
            None => usize::MAX,
        };
        assert(plane@ =~= base + spec_lp_meta_region(
            streams@,
            fel_meta@,
            ids_offset as int,
            active_offset as int,
            node + 1,
        ));
        ids_cursor = ids_cursor + count;
        active_cursor = active_cursor + words;
        node += 1;
    }
}

fn push_ids(plane: &mut Vec<u64>, streams: &Vec<Vec<u64>>)
    ensures
        final(plane)@ == old(plane)@ + spec_ids_region(streams@, streams@.len() as int),
{
    let ghost base = plane@;
    let mut node: usize = 0;
    while node < streams.len()
        invariant
            node <= streams@.len(),
            plane@ == base + spec_ids_region(streams@, node as int),
        decreases streams@.len() - node,
    {
        let list = &streams[node];
        let mut k: usize = 0;
        while k < list.len()
            invariant
                node < streams@.len(),
                list@ == streams@[node as int]@,
                k <= list@.len(),
                plane@ == base + spec_ids_region(streams@, node as int) + list@.take(k as int),
            decreases list@.len() - k,
        {
            plane.push(list[k]);
            k += 1;
            assert(plane@ =~= base + spec_ids_region(streams@, node as int) + list@.take(k as int));
        }
        assert(list@.take(list@.len() as int) =~= list@);
        assert(plane@ =~= base + spec_ids_region(streams@, node + 1));
        node += 1;
    }
}

fn push_zeros(plane: &mut Vec<u64>, count: usize)
    ensures
        final(plane)@ == old(plane)@ + spec_zeros(count as int),
{
    let ghost base = plane@;
    let mut k: usize = 0;
    while k < count
        invariant
            k <= count,
            plane@ == base + spec_zeros(k as int),
        decreases count - k,
    {
        plane.push(0);
        k += 1;
        assert(plane@ =~= base + spec_zeros(k as int));
    }
}

fn push_active(plane: &mut Vec<u64>, streams: &Vec<Vec<u64>>, fel_meta: &[u64], fel_records: &[u64])
    requires
        fel_meta@.len() >= streams@.len() * ARENA_META_WORDS,
        forall|node: int|
            0 <= node < streams@.len() && #[trigger] spec_has_fel(fel_meta@, node) ==> fel_meta@[node
                * ARENA_META_WORDS] * EVENT_WORDS + 4 <= fel_records@.len(),
    ensures
        final(plane)@ == old(plane)@ + spec_active_region(
            streams@,
            fel_meta@,
            fel_records@,
            streams@.len() as int,
        ),
{
    let ghost base = plane@;
    let meta_words = fel_meta.len();
    let record_words = fel_records.len();
    let mut node: usize = 0;
    while node < streams.len()
        invariant
            node <= streams@.len(),
            meta_words == fel_meta@.len(),
            record_words == fel_records@.len(),
            fel_meta@.len() >= streams@.len() * ARENA_META_WORDS,
            forall|n: int|
                0 <= n < streams@.len() && #[trigger] spec_has_fel(fel_meta@, n) ==> fel_meta@[n
                    * ARENA_META_WORDS] * EVENT_WORDS + 4 <= fel_records@.len(),
            plane@ == base + spec_active_region(streams@, fel_meta@, fel_records@, node as int),
        decreases streams@.len() - node,
    {
        proof {
            assert(node * ARENA_META_WORDS + 3 < fel_meta@.len()) by (nonlinear_arith)
                requires
                    node < streams@.len(),
                    fel_meta@.len() >= streams@.len() * ARENA_META_WORDS,
            ;
        }
        let ghost before = plane@;
        let count = streams[node].len();
        let entry_count = count.saturating_add(1);
        let words = match entry_count.checked_mul(ACTIVE_STREAM_ENTRY_WORDS) {
            Some(words) => words,
            None => usize::MAX,
        };
        if fel_meta[node * ARENA_META_WORDS + 3] != 0 {
            assert(spec_has_fel(fel_meta@, node as int));
            let root_record = fel_meta[node * ARENA_META_WORDS];
            assert(root_record * EVENT_WORDS + 4 <= fel_records@.len());
            let root = (root_record as usize) * EVENT_WORDS;
            plane.push(NONE);
            plane.push(fel_records[root]);
            plane.push(fel_records[root + 1]);
            plane.push(fel_records[root + 2]);
            plane.push(fel_records[root + 3]);
            assert(plane@ =~= before + (seq![NONE] + fel_records@.subrange(root as int, root + 4)));
        } else {
            push_zeros(plane, 5);
        }
        push_zeros(plane, words - 5);
        assert(plane@ =~= base + spec_active_region(streams@, fel_meta@, fel_records@, node + 1));
        node += 1;
    }
}

fn push_outbound_meta(plane: &mut Vec<u64>, outbound: &Vec<Vec<(u64, u64)>>, entries_offset: usize)
    requires
        entries_offset + OUTBOUND_ENTRY_WORDS * spec_outbound_entries(outbound@, outbound@.len() as int)
            <= usize::MAX,
    ensures
        final(plane)@ == old(plane)@ + spec_outbound_meta_region(
            outbound@,
            entries_offset as int,
            outbound@.len() as int,
        ),
{
    let ghost base = plane@;
    let mut cursor = entries_offset;
    let mut node: usize = 0;
    while node < outbound.len()
        invariant
            node <= outbound@.len(),
            entries_offset + OUTBOUND_ENTRY_WORDS * spec_outbound_entries(
                outbound@,
                outbound@.len() as int,
            ) <= usize::MAX,
            cursor == entries_offset + OUTBOUND_ENTRY_WORDS * spec_outbound_entries(outbound@, node as int),
            plane@ == base + spec_outbound_meta_region(outbound@, entries_offset as int, node as int),
        decreases outbound@.len() - node,
    {
        proof {
            lemma_entries_grow(outbound@, node + 1, outbound@.len() as int);
        }
        let count = outbound[node].len();
        plane.push(cursor as u64);
        plane.push(count as u64);
        assert(plane@ =~= base + spec_outbound_meta_region(outbound@, entries_offset as int, node + 1));
        cursor = cursor + OUTBOUND_ENTRY_WORDS * count;
        node += 1;
    }
}

fn push_outbound(plane: &mut Vec<u64>, outbound: &Vec<Vec<(u64, u64)>>)
    ensures
        final(plane)@ == old(plane)@ + spec_outbound_region(outbound@, outbound@.len() as int),
{
    let ghost base = plane@;
    let mut node: usize = 0;
    while node < outbound.len()
        invariant
            node <= outbound@.len(),
            plane@ == base + spec_outbound_region(outbound@, node as int),
        decreases outbound@.len() - node,
    {
        let entries = &outbound[node];
        let mut k: usize = 0;
        while k < entries.len()
            invariant
                node < outbound@.len(),
                entries@ == outbound@[node as int]@,
                k <= entries@.len(),
                plane@ == base + spec_outbound_region(outbound@, node as int) + spec_entry_words(
                    entries@,
                    k as int,
                ),
            decreases entries@.len() - k,
        {
            let (target, channel) = entries[k];
            plane.push(target);
            plane.push(channel);
            k += 1;
            assert(plane@ =~= base + spec_outbound_region(outbound@, node as int) + spec_entry_words(
                entries@,
                k as int,
            ));
        }
        assert(plane@ =~= base + spec_outbound_region(outbound@, node + 1));
        node += 1;
    }
}

proof fn lemma_region_lengths(
    streams: Seq<Vec<u64>>,
    outbound: Seq<Vec<(u64, u64)>>,
    fel_meta: Seq<u64>,
    fel_records: Seq<u64>,
    ids_offset: int,
    active_offset: int,
    entries_offset: int,
    upto: int,
)
    requires
        0 <= upto <= streams.len(),
        upto <= outbound.len(),
        forall|node: int|
            0 <= node < upto && #[trigger] spec_has_fel(fel_meta, node) ==> 0 <= fel_meta[node
                * ARENA_META_WORDS] * EVENT_WORDS && fel_meta[node * ARENA_META_WORDS] * EVENT_WORDS
                + 4 <= fel_records.len(),
    ensures
        spec_lp_meta_region(streams, fel_meta, ids_offset, active_offset, upto).len() == upto * 4,
        spec_ids_region(streams, upto).len() == spec_stream_ids(streams, upto),
        spec_active_region(streams, fel_meta, fel_records, upto).len() == spec_active_ids(
            streams,
            upto,
        ),
        spec_outbound_meta_region(outbound, entries_offset, upto).len() == upto * 2,
        spec_outbound_region(outbound, upto).len() == 2 * spec_outbound_entries(outbound, upto),
    decreases upto,
{
    if upto > 0 {
        lemma_region_lengths(
            streams,
            outbound,
            fel_meta,
            fel_records,
            ids_offset,
            active_offset,
            entries_offset,
            upto - 1,
        );
        lemma_entry_words_length(outbound[upto - 1]@, outbound[upto - 1]@.len() as int);
        let words = spec_active_words(streams[upto - 1]@.len() as int);
        assert(words >= 5);
    }
}

proof fn lemma_entry_words_length(entries: Seq<(u64, u64)>, upto: int)
    requires
        0 <= upto <= entries.len(),
    ensures
        spec_entry_words(entries, upto).len() == 2 * upto,
    decreases upto,
{
    if upto > 0 {
        lemma_entry_words_length(entries, upto - 1);
    }
}

proof fn lemma_batch_length(upto: int)
    requires
        0 <= upto,
    ensures
        spec_batch_region(upto).len() == 4 * upto,
    decreases upto,
{
    if upto > 0 {
        lemma_batch_length(upto - 1);
    }
}

/// Fills the stream state plane after its ring metadata: per-LP stream metadata, the stream
/// lists, the active-stream entries seeded with each non-empty FEL's head key, outbound
/// metadata and entries, empty channel batches, unassigned remote staging slots and channel
/// targets, at the offsets `stream_plane_offsets` gives.
pub fn stream_state_plane(
    ring_meta: Vec<u64>,
    streams: &Vec<Vec<u64>>,
    outbound: &Vec<Vec<(u64, u64)>>,
    fel_meta: &[u64],
    fel_records: &[u64],
    channel_count: usize,
    remote_staging_slots: usize,
    offsets: StreamPlaneOffsets,
) -> (plane: Vec<u64>)
    requires
        outbound@.len() == streams@.len(),
        spec_offsets_of(
            ring_meta@.len() as int,
            streams@,
            outbound@,
            channel_count as int,
            remote_staging_slots as int,
            offsets,
        ),
        fel_meta@.len() >= streams@.len() * ARENA_META_WORDS,
        forall|node: int|
            0 <= node < streams@.len() && #[trigger] spec_has_fel(fel_meta@, node) ==> fel_meta@[node
                * ARENA_META_WORDS] * EVENT_WORDS + 4 <= fel_records@.len(),
    ensures
        plane@ == spec_stream_plane(
            ring_meta@,
            streams@,
            outbound@,
            fel_meta@,
            fel_records@,
            channel_count as int,
            remote_staging_slots as int,
            offsets,
        ),
        plane@.len() == offsets.state_words,
{
    let mut plane = ring_meta;
    let ghost nodes = streams@.len() as int;
    proof {
        reveal_with_fuel(spec_size_prefix, 9);
        lemma_stream_ids_grow(streams@, 0, nodes);
        lemma_active_ids_grow(streams@, 0, nodes);
        lemma_entries_grow(outbound@, 0, nodes);
        assert(0 <= nodes * LP_STREAM_META_WORDS) by (nonlinear_arith)
            requires
                nodes >= 0,
        ;
        assert(0 <= nodes * OUTBOUND_META_WORDS) by (nonlinear_arith)
            requires
                nodes >= 0,
        ;
        assert(0 <= channel_count * CHANNEL_BATCH_WORDS) by (nonlinear_arith);
    }
    push_lp_meta(&mut plane, streams, fel_meta, offsets.lp_stream_ids_offset, offsets.lp_active_ids_offset);
    push_ids(&mut plane, streams);
    push_active(&mut plane, streams, fel_meta, fel_records);
    push_outbound_meta(&mut plane, outbound, offsets.outbound_entries_offset);
    push_outbound(&mut plane, outbound);
    let ghost before_batches = plane@;
    let mut c: usize = 0;
    while c < channel_count
        invariant
            c <= channel_count,
            plane@ == before_batches + spec_batch_region(c as int),
        decreases channel_count - c,
    {
        plane.push(0);
        plane.push(NONE);
        plane.push(NONE);
        plane.push(0);
        c += 1;
        assert(plane@ =~= before_batches + spec_batch_region(c as int));
    }
    let ghost before_staging = plane@;
    let mut k: usize = 0;
    while k < remote_staging_slots
        invariant
            k <= remote_staging_slots,
            plane@ == before_staging + Seq::new(k as nat, |i: int| NONE),
        decreases remote_staging_slots - k,
    {
        plane.push(NONE);
        k += 1;
        assert(plane@ =~= before_staging + Seq::new(k as nat, |i: int| NONE));
    }
    let ghost before_targets = plane@;
    let mut t: usize = 0;
    while t < channel_count
        invariant
            t <= channel_count,
            plane@ == before_targets + Seq::new(t as nat, |i: int| i as u64),
        decreases channel_count - t,
    {
        plane.push(t as u64);
        t += 1;
        assert(plane@ =~= before_targets + Seq::new(t as nat, |i: int| i as u64));
    }
    proof {
        lemma_region_lengths(
            streams@,
            outbound@,
            fel_meta@,
            fel_records@,
            offsets.lp_stream_ids_offset as int,
            offsets.lp_active_ids_offset as int,
            offsets.outbound_entries_offset as int,
            nodes,
        );
        lemma_batch_length(channel_count as int);
    }
    if plane.len() == 0 {
        plane.push(0);
    }
    plane
}

} // verus!
