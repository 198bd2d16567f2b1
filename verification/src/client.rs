//! The viewer-side endpoint, the session's mirror: it encodes captured
//! input for the wire, reassembles received bytes into frames, and tracks
//! the last applied frame index so gaps and reordering can be seen.

use vstd::prelude::*;
use crate::codec::{
    DecodeError, EncodeError, ReadBuffer, StepModel, client_msg_encodable, enc_client_payload,
    enc_record, encode_client_message, server_step,
};
use crate::input::{InputDelta, input_model};
use crate::messages::{
    ClientMsgModel, ClientToServerMessage, ClippedNetMesh, ServerMsgModel, ServerToClientMessage,
    clipped_net_meshes_model,
};

verus! {

/// One decoded frame as the rendering backend consumes it.
pub struct EtermFrame {
    pub frame_index: u64,
    pub platform_output: Vec<u8>,
    pub clipped_net_mesh: Vec<ClippedNetMesh>,
    pub textures_delta: Vec<u8>,
}

/// The viewer endpoint. The host owns the socket; this side builds the
/// bytes to send and turns received bytes into frames.
pub struct Client {
    /// Reassembles partial reads from the server.
    pub recv_buf: ReadBuffer,
    /// The index of the last frame handed to the renderer.
    pub last_frame_index: u64,
}

impl Client {
    pub fn new() -> (c: Client)
        ensures
            c.recv_buf.model() == Seq::<u8>::empty(),
            c.last_frame_index == 0,
    {
        Client { recv_buf: ReadBuffer::new(), last_frame_index: 0 }
    }

    /// Encode one captured input batch, with the viewer's clock at
    /// capture time (64-bit float bits), as a record for the host to
    /// transmit. Fails only on input too large for the wire format.
    pub fn send_input(&self, raw_input: InputDelta, client_time: u64) -> (r: Result<
        Vec<u8>,
        EncodeError,
    >)
        ensures
            ({
                let m = ClientMsgModel::Input {
                    raw_input: input_model(raw_input),
                    client_time,
                };
                match r {
                    Ok(v) => client_msg_encodable(m) && v@ == enc_record(enc_client_payload(m)),
                    Err(_) => !client_msg_encodable(m),
                }
            }),
    {
        let msg = ClientToServerMessage::Input { raw_input, client_time };
        encode_client_message(&msg)
    }

    /// Encode the explicit disconnect notice; it carries no payload and
    /// always fits the wire format.
    pub fn goodbye(&self) -> (v: Vec<u8>)
        ensures
            v@ == enc_record(enc_client_payload(ClientMsgModel::Goodbye)),
    {
        let msg = ClientToServerMessage::Goodbye;
        let encoded = encode_client_message(&msg);
        match encoded {
            Ok(v) => v,
            Err(_) => {
                proof {
                    assert(client_msg_encodable(ClientMsgModel::Goodbye));
                    assert(false);
                }
                Vec::new()
            },
        }
    }

    /// Buffer bytes read from the server's connection.
    pub fn feed(&mut self, bytes: &Vec<u8>)
        ensures
            final(self).recv_buf.model() == old(self).recv_buf.model() + bytes@,
            final(self).last_frame_index == old(self).last_frame_index,
    {
        self.recv_buf.feed(bytes);
    }

    /// Non-blocking poll for one frame. Yields nothing until a complete
    /// record has arrived; a complete frame is decoded exactly, becomes
    /// the last applied frame, and is handed out with the server's echo
    /// of the viewer clock dropped. A malformed record is a fatal decode
    /// error: the host must drop the connection.
    pub fn update(&mut self) -> (r: Result<Option<EtermFrame>, DecodeError>)
        ensures
            match server_step(old(self).recv_buf.model()) {
                StepModel::NeedBytes => r matches Ok(q) && q is None
                    && final(self).recv_buf.model() == old(self).recv_buf.model()
                    && final(self).last_frame_index == old(self).last_frame_index,
                StepModel::Bad => r is Err
                    && final(self).recv_buf.model() == old(self).recv_buf.model()
                    && final(self).last_frame_index == old(self).last_frame_index,
                StepModel::Got(m, c) => m matches ServerMsgModel::Frame {
                    frame_index, platform_output, clipped_net_mesh, textures_delta, client_time,
                } && r matches Ok(q) && q matches Some(f)
                    && f.frame_index == frame_index
                    && f.platform_output@ == platform_output
                    && clipped_net_meshes_model(f.clipped_net_mesh@) == clipped_net_mesh
                    && f.textures_delta@ == textures_delta
                    && final(self).recv_buf.model() == old(self).recv_buf.model().skip(c)
                    && final(self).last_frame_index == frame_index,
            },
    {
        let extracted = self.recv_buf.try_extract_server();
        match extracted {
            Ok(opt) => match opt {
                Option::None => Ok(None),
                Option::Some(msg) => match msg {
                    ServerToClientMessage::Frame {
                        frame_index, platform_output, clipped_net_mesh, textures_delta,
                        client_time,
                    } => {
                        self.last_frame_index = frame_index;
                        Ok(Some(EtermFrame {
                            frame_index,
                            platform_output,
                            clipped_net_mesh,
                            textures_delta,
                        }))
                    },
                },
            },
            Err(e) => Err(e),
        }
    }
}

} // verus!
