//! The loading screen's handshake with the server: which messages have
//! arrived, when the content can be built, and when the game can start.

use vstd::prelude::*;
use crate::chat::{ChatLine, ChatUiState, pushed_log};

verus! {

/// A server message during loading, with the payloads the client keeps.
pub enum ServerEvent<Man, Tex, EMan, EAsset> {
    /// The server refused the connection, with its reason.
    Reject(String),
    Hello,
    /// The content manifest.
    Manifest(Man),
    /// Chunk `index` of `total` of the texture transfer.
    TextureAssets { index: u32, total: u32, textures: Vec<Tex> },
    /// The entity manifest; `empty` when it lists no entity.
    EntityManifest { manifest: EMan, empty: bool },
    /// Chunk `index` of `total` of the entity asset transfer.
    EntityAssets { index: u32, total: u32, assets: Vec<EAsset> },
    /// The initial world state; the world time as `f64` bits.
    Initial { world_time_bits: u64 },
    Chat(ChatLine),
    /// Any message loading does not handle.
    Other,
}

/// What loading has received and built so far.
pub struct LoadingState<Man, Tex, EMan, EAsset> {
    pub done: bool,
    pub error: Option<String>,
    pub pending_manifest: Option<Man>,
    pub pending_textures: Vec<Tex>,
    pub pending_world_time_bits: Option<u64>,
    pub all_textures_received: bool,
    pub pending_entity_manifest: Option<(EMan, bool)>,
    pub pending_entity_assets: Vec<EAsset>,
    pub all_entity_assets_received: bool,
    pub content_ready: bool,
    pub entities_built: bool,
    pub initial_received: bool,
    pub handshake_done: bool,
}

/// Whether a transfer chunk is its transfer's last.
pub open spec fn last_chunk(index: u32, total: u32) -> bool {
    index + 1 >= total
}

/// Of the chunks `0, 1, ..., total - 1` of a transfer, exactly the final
/// one completes it: a chunk that more chunks follow never does, and the
/// chunk numbered `total - 1` always does.
pub proof fn lemma_only_final_chunk_completes(index: u32, total: u32)
    ensures
        index + 1 < total ==> !last_chunk(index, total),
        index + 1 == total ==> last_chunk(index, total),
        forall|i: u32| i < total ==> (#[trigger] last_chunk(i, total) <==> i == total - 1),
{
}

impl<Man, Tex, EMan, EAsset> LoadingState<Man, Tex, EMan, EAsset> {
    /// Nothing received yet.
    pub fn new() -> (r: Self)
        ensures
            !r.done,
            r.error is None,
            r.pending_manifest is None,
            r.pending_textures@.len() == 0,
            r.pending_world_time_bits is None,
            !r.all_textures_received,
            r.pending_entity_manifest is None,
            r.pending_entity_assets@.len() == 0,
            !r.all_entity_assets_received,
            !r.content_ready,
            !r.entities_built,
            !r.initial_received,
            !r.handshake_done,
    {
        LoadingState {
            done: false,
            error: None,
            pending_manifest: None,
            pending_textures: Vec::new(),
            pending_world_time_bits: None,
            all_textures_received: false,
            pending_entity_manifest: None,
            pending_entity_assets: Vec::new(),
            all_entity_assets_received: false,
            content_ready: false,
            entities_built: false,
            initial_received: false,
            handshake_done: false,
        }
    }

    /// Takes in one server message. A rejection records the server's reason
    /// and ends loading, and the messages after it are not read (the result
    /// tells when to stop); chat lines go to the chat log, received at `now`.
    pub fn receive(
        &mut self,
        event: ServerEvent<Man, Tex, EMan, EAsset>,
        chat: &mut ChatUiState,
        now: u64,
    ) -> (stop: bool)
        ensures
            stop == (event is Reject),
            match event {
                ServerEvent::Chat(line) => final(chat).log() == pushed_log(old(chat).log(), line, now),
                _ => *final(chat) == *old(chat),
            },
            match event {
                ServerEvent::Reject(reason) => {
                    &&& final(self).error == Some(reason)
                    &&& final(self).done
                },
                _ => {
                    &&& final(self).error == old(self).error
                    &&& final(self).done == old(self).done
                },
            },
            final(self).pending_manifest == match event {
                ServerEvent::Manifest(m) => Some(m),
                _ => old(self).pending_manifest,
            },
            final(self).pending_textures@ == match event {
                ServerEvent::TextureAssets { textures, .. } => old(self).pending_textures@ + textures@,
                _ => old(self).pending_textures@,
            },
            final(self).all_textures_received == match event {
                ServerEvent::TextureAssets { index, total, .. } => old(self).all_textures_received
                    || last_chunk(index, total),
                _ => old(self).all_textures_received,
            },
            final(self).pending_entity_manifest == match event {
                ServerEvent::EntityManifest { manifest, empty } => Some((manifest, empty)),
                _ => old(self).pending_entity_manifest,
            },
            final(self).pending_entity_assets@ == match event {
                ServerEvent::EntityAssets { assets, .. } => old(self).pending_entity_assets@ + assets@,
                _ => old(self).pending_entity_assets@,
            },
            final(self).all_entity_assets_received == match event {
                ServerEvent::EntityAssets { index, total, .. } => old(self).all_entity_assets_received
                    || last_chunk(index, total),
                _ => old(self).all_entity_assets_received,
            },
            final(self).initial_received == (old(self).initial_received || event is Initial),
            final(self).pending_world_time_bits == match event {
                ServerEvent::Initial { world_time_bits } => Some(world_time_bits),
                _ => old(self).pending_world_time_bits,
            },
            final(self).content_ready == old(self).content_ready,
            final(self).entities_built == old(self).entities_built,
            final(self).handshake_done == old(self).handshake_done,
    {
        match event {
            ServerEvent::Reject(reason) => {
                self.error = Some(reason);
                self.done = true;
                return true;
            },
            ServerEvent::Hello => {},
            ServerEvent::Manifest(m) => {
                self.pending_manifest = Some(m);
            },
            ServerEvent::TextureAssets { index, total, textures } => {
                let is_last = index as u64 + 1 >= total as u64;
                let mut t = textures;
                self.pending_textures.append(&mut t);
                if is_last {
                    self.all_textures_received = true;
                }
            },
            ServerEvent::EntityManifest { manifest, empty } => {
                self.pending_entity_manifest = Some((manifest, empty));
            },
            ServerEvent::EntityAssets { index, total, assets } => {
                let is_last = index as u64 + 1 >= total as u64;
                let mut a = assets;
                self.pending_entity_assets.append(&mut a);
                if is_last {
                    self.all_entity_assets_received = true;
                }
            },
            ServerEvent::Initial { world_time_bits } => {
                self.initial_received = true;
                self.pending_world_time_bits = Some(world_time_bits);
            },
            ServerEvent::Chat(line) => {
                chat.push_chat_line(line, now);
            },
            ServerEvent::Other => {},
        }
        false
    }

    /// Hands out the manifest and every received texture once the last
    /// texture chunk arrived, for building the content; `None` until then.
    pub fn take_content_parts(&mut self) -> (r: Option<(Man, Vec<Tex>)>)
        ensures
            if old(self).pending_manifest is Some && old(self).all_textures_received {
                &&& r matches Some((m, t)) && Some(m) == old(self).pending_manifest && t@
                    == old(self).pending_textures@
                &&& final(self).pending_manifest is None
                &&& final(self).pending_textures@.len() == 0
            } else {
                &&& r is None
                &&& final(self).pending_manifest == old(self).pending_manifest
                &&& final(self).pending_textures@ == old(self).pending_textures@
            },
            final(self).done == old(self).done,
            final(self).error == old(self).error,
            final(self).all_textures_received == old(self).all_textures_received,
            final(self).pending_entity_manifest == old(self).pending_entity_manifest,
            final(self).pending_entity_assets@ == old(self).pending_entity_assets@,
            final(self).all_entity_assets_received == old(self).all_entity_assets_received,
            final(self).content_ready == old(self).content_ready,
            final(self).entities_built == old(self).entities_built,
            final(self).initial_received == old(self).initial_received,
            final(self).handshake_done == old(self).handshake_done,
            final(self).pending_world_time_bits == old(self).pending_world_time_bits,
    {
        if self.pending_manifest.is_some() && self.all_textures_received {
            let m = self.pending_manifest.take();
            let mut t: Vec<Tex> = Vec::new();
            std::mem::swap(&mut t, &mut self.pending_textures);
            match m {
                Some(m) => Some((m, t)),
                None => None,
            }
        } else {
            None
        }
    }

    /// Records how building the content went: ready, or loading ends with
    /// the build's error.
    pub fn content_built(&mut self, result: Result<(), String>)
        ensures
            match result {
                Ok(()) => {
                    &&& final(self).content_ready
                    &&& final(self).done == old(self).done
                    &&& final(self).error == old(self).error
                },
                Err(e) => {
                    &&& final(self).content_ready == old(self).content_ready
                    &&& final(self).done
                    &&& final(self).error matches Some(m) && m@ == "Failed to build texture atlases: "@
                        + e@
                },
            },
            final(self).pending_manifest == old(self).pending_manifest,
            final(self).pending_textures@ == old(self).pending_textures@,
            final(self).all_textures_received == old(self).all_textures_received,
            final(self).pending_entity_manifest == old(self).pending_entity_manifest,
            final(self).pending_entity_assets@ == old(self).pending_entity_assets@,
            final(self).all_entity_assets_received == old(self).all_entity_assets_received,
            final(self).entities_built == old(self).entities_built,
            final(self).initial_received == old(self).initial_received,
            final(self).handshake_done == old(self).handshake_done,
            final(self).pending_world_time_bits == old(self).pending_world_time_bits,
    {
        match result {
            Ok(()) => {
                self.content_ready = true;
            },
            Err(e) => {
                let mut m = String::from_str("Failed to build texture atlases: ");
                m.append(e.as_str());
                self.error = Some(m);
                self.done = true;
            },
        }
    }

    /// Whether the entity manifest arrived with everything it lists.
    pub open spec fn entities_complete(&self) -> bool {
        match self.pending_entity_manifest {
            Some((_, empty)) => empty || self.all_entity_assets_received,
            None => false,
        }
    }

    /// Once the content is built and the entity transfer is complete, hands
    /// out the entity manifest and assets for building the entity catalog
    /// and marks the handshake done; `None` otherwise.
    pub fn take_entity_parts(&mut self) -> (r: Option<(EMan, Vec<EAsset>)>)
        ensures
            if old(self).content_ready && old(self).entities_complete() && !old(self).entities_built {
                &&& r matches Some((m, a)) && old(self).pending_entity_manifest matches Some((m0, _))
                    && m == m0 && a@ == old(self).pending_entity_assets@
                &&& final(self).pending_entity_manifest is None
                &&& final(self).pending_entity_assets@.len() == 0
                &&& final(self).entities_built
                &&& final(self).handshake_done
            } else {
                &&& r is None
                &&& final(self).pending_entity_manifest == old(self).pending_entity_manifest
                &&& final(self).pending_entity_assets@ == old(self).pending_entity_assets@
                &&& final(self).entities_built == old(self).entities_built
                &&& final(self).handshake_done == old(self).handshake_done
            },
            final(self).done == old(self).done,
            final(self).error == old(self).error,
            final(self).pending_manifest == old(self).pending_manifest,
            final(self).pending_textures@ == old(self).pending_textures@,
            final(self).all_textures_received == old(self).all_textures_received,
            final(self).all_entity_assets_received == old(self).all_entity_assets_received,
            final(self).content_ready == old(self).content_ready,
            final(self).initial_received == old(self).initial_received,
            final(self).pending_world_time_bits == old(self).pending_world_time_bits,
    {
        let complete = match &self.pending_entity_manifest {
            Some((_, empty)) => *empty || self.all_entity_assets_received,
            None => false,
        };
        if self.content_ready && complete && !self.entities_built {
            let m = self.pending_entity_manifest.take();
            let mut a: Vec<EAsset> = Vec::new();
            std::mem::swap(&mut a, &mut self.pending_entity_assets);
            self.entities_built = true;
            self.handshake_done = true;
            match m {
                Some((m, _)) => Some((m, a)),
                None => None,
            }
        } else {
            None
        }
    }

    /// Ends loading once the handshake is done and the initial world state
    /// arrived.
    pub fn check_done(&mut self)
        ensures
            final(self).done == (old(self).done || (old(self).handshake_done && old(self).initial_received)),
            final(self).error == old(self).error,
            final(self).content_ready == old(self).content_ready,
            final(self).handshake_done == old(self).handshake_done,
            final(self).initial_received == old(self).initial_received,
    {
        if !self.done && self.handshake_done && self.initial_received {
            self.done = true;
        }
    }

    /// Whether the game can start: loading ended without an error.
    pub fn can_start_game(&self) -> (r: bool)
        ensures
            r == (self.done && self.error is None),
    {
        self.done && self.error.is_none()
    }
}

} // verus!
